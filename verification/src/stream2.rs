//! Stream channel protocol.
//!
//! This is the flavor of channel optimized for one sender and one receiver.
//! The transport carries `Message<T>`: ordinary data, or an in-band `GoUp`
//! control message that promotes the channel to the shared, multi-producer
//! flavor when it is cloned. A `Packet` couples one transport with the
//! disconnect flag and the parked consumer's wake handle.
//!
//! Parking itself is an outside facility: the packet only stores and returns
//! wake tokens. A function that takes a token out also hands it to its caller,
//! who must fire it exactly once; the receive loop that actually parks is
//! driven from outside via `try_recv` and `decrement`.

use vstd::prelude::*;
use vstd::pervasive::unreached;
use crate::spsc;
use crate::spsc2;

verus! {

/// Relies on std's `std::sync::mpsc::Receiver`: the shared-flavor receiver
/// handle that an upgrade carries. The channel only stores and hands it
/// through; no method of it is called in this crate.
#[verifier::external_type_specification]
#[verifier::external_body]
#[verifier::reject_recursive_types(T)]
pub struct ExReceiver<T>(std::sync::mpsc::Receiver<T>);

/// An owned, non-duplicable wake capability, stored as a nonzero handle.
/// The packet stores one while the consumer is parked; whoever takes it out
/// must fire it exactly once through the outside parking facility.
pub struct SignalToken {
    handle: usize,
}

impl SignalToken {
    /// The token's nonzero handle.
    pub closed spec fn spec_handle(&self) -> usize {
        self.handle
    }

    /// A token always carries a nonzero handle.
    pub closed spec fn wf(&self) -> bool {
        self.handle != 0
    }

    /// Wraps a raw handle previously produced by `cast_to_usize` (or chosen
    /// by the parking facility) back into an owned token.
    pub fn cast_from_usize(h: usize) -> (t: SignalToken)
        requires
            h != 0,
        ensures
            t.wf(),
            t.spec_handle() == h,
    {
        SignalToken { handle: h }
    }

    /// Consumes the token, yielding the raw handle it carries.
    pub fn cast_to_usize(self) -> (h: usize)
        requires
            self.wf(),
        ensures
            h == self.spec_handle(),
            h != 0,
    {
        self.handle
    }
}

/// The capability the channel needs from its transport: construct with a
/// node-reuse bound, push at the back, pop from the front — each specified
/// against the sequence of queued values.
pub trait Queue<T>: Sized {
    /// Well-formedness, carried through every operation.
    spec fn inv(&self) -> bool;

    /// The queued values, front first.
    spec fn contents(&self) -> Seq<T>;

    /// Constructs an empty transport; a `bound` of 0 means unbounded reuse.
    fn new(bound: usize) -> (q: Self)
        ensures
            q.inv(),
            q.contents() == Seq::<T>::empty(),
    ;

    /// Appends `t` at the back.
    fn push(&mut self, t: T)
        requires
            old(self).inv(),
        ensures
            final(self).inv(),
            final(self).contents() == old(self).contents().push(t),
    ;

    /// Removes and returns the front value, if any.
    fn pop(&mut self) -> (r: Option<T>)
        requires
            old(self).inv(),
        ensures
            final(self).inv(),
            old(self).contents().len() == 0 ==> r is None && final(self).contents() == old(self).contents(),
            old(self).contents().len() > 0 ==> r == Some(old(self).contents()[0]) && final(self).contents() == old(self).contents().drop_first(),
    ;
}

impl<T> Queue<T> for spsc::Queue<T, spsc::CacheAligned, spsc::NormalNodeCache> {
    open spec fn inv(&self) -> bool {
        self.wf()
    }

    open spec fn contents(&self) -> Seq<T> {
        self.view()
    }

    fn new(bound: usize) -> Self {
        spsc::Queue::aligned(bound)
    }

    fn push(&mut self, t: T) {
        spsc::Queue::push(self, t)
    }

    fn pop(&mut self) -> Option<T> {
        spsc::Queue::pop(self)
    }
}

impl<T> Queue<T> for spsc::Queue<T, spsc::NoAlign, spsc::NormalNodeCache> {
    open spec fn inv(&self) -> bool {
        self.wf()
    }

    open spec fn contents(&self) -> Seq<T> {
        self.view()
    }

    fn new(bound: usize) -> Self {
        spsc::Queue::new(bound)
    }

    fn push(&mut self, t: T) {
        spsc::Queue::push(self, t)
    }

    fn pop(&mut self) -> Option<T> {
        spsc::Queue::pop(self)
    }
}

impl<T> Queue<T> for spsc::Queue<T, spsc::NoAlign, spsc::NoNodeCache> {
    open spec fn inv(&self) -> bool {
        self.wf()
    }

    open spec fn contents(&self) -> Seq<T> {
        self.view()
    }

    fn new(_bound: usize) -> Self {
        spsc::Queue::no_cache()
    }

    fn push(&mut self, t: T) {
        spsc::Queue::push(self, t)
    }

    fn pop(&mut self) -> Option<T> {
        spsc::Queue::pop(self)
    }
}

impl<T> Queue<T> for spsc::Queue<T, spsc::CacheAligned, spsc::NoNodeCache> {
    open spec fn inv(&self) -> bool {
        self.wf()
    }

    open spec fn contents(&self) -> Seq<T> {
        self.view()
    }

    fn new(_bound: usize) -> Self {
        spsc::Queue::aligned_no_cache()
    }

    fn push(&mut self, t: T) {
        spsc::Queue::push(self, t)
    }

    fn pop(&mut self) -> Option<T> {
        spsc::Queue::pop(self)
    }
}

impl<T> Queue<T> for spsc2::Queue<T, spsc2::NoAlign> {
    open spec fn inv(&self) -> bool {
        self.wf()
    }

    open spec fn contents(&self) -> Seq<T> {
        self.view()
    }

    fn new(bound: usize) -> Self {
        spsc2::Queue::new(bound)
    }

    fn push(&mut self, t: T) {
        spsc2::Queue::push(self, t)
    }

    fn pop(&mut self) -> Option<T> {
        spsc2::Queue::pop(self)
    }
}

impl<T> Queue<T> for spsc2::Queue<T, spsc2::CacheAligned> {
    open spec fn inv(&self) -> bool {
        self.wf()
    }

    open spec fn contents(&self) -> Seq<T> {
        self.view()
    }

    fn new(bound: usize) -> Self {
        spsc2::Queue::aligned(bound)
    }

    fn push(&mut self, t: T) {
        spsc2::Queue::push(self, t)
    }

    fn pop(&mut self) -> Option<T> {
        spsc2::Queue::pop(self)
    }
}

/// Any message could carry an upgrade request to a new shared port, so the
/// transport carries `Message<T>` rather than bare `T`.
#[verifier::reject_recursive_types(T)]
pub enum Message<T> {
    /// In-band payload.
    Data(T),
    /// The channel has been promoted to the shared flavor: continue on the
    /// carried receiver.
    GoUp(std::sync::mpsc::Receiver<T>),
}

/// Why a receive did not yield a value.
#[verifier::reject_recursive_types(T)]
pub enum Failure<T> {
    /// Nothing queued right now; try again later or park.
    Empty,
    /// No further data will ever arrive on this channel.
    Disconnected,
    /// The channel has been promoted: continue on the carried receiver.
    Upgraded(std::sync::mpsc::Receiver<T>),
}

/// Outcome of pushing a message while racing a disconnect.
pub enum UpgradeResult {
    /// The message was queued (or the disconnect won and consumed it).
    UpSuccess,
    /// The port was found dropped right after the push; the message was
    /// drained back out.
    UpDisconnected,
    /// The message was queued and a parked consumer's wake token was taken;
    /// the caller must fire it.
    UpWoke(SignalToken),
}

/// Outcome of a selection attempt over this channel.
#[verifier::reject_recursive_types(T)]
pub enum SelectionResult<T> {
    /// The channel was selected for receiving.
    SelSuccess,
    /// The attempt was canceled before any data arrived.
    SelCanceled,
    /// The channel was promoted while selecting: continue on the carried
    /// receiver, and fire the returned token.
    SelUpgraded(SignalToken, std::sync::mpsc::Receiver<T>),
}

/// The channel's abstract state: the queued messages, whether a side has
/// disconnected, and the parked consumer's wake handle (0 when none).
#[verifier::ext_equal]
#[verifier::reject_recursive_types(T)]
pub struct ChannelState<T> {
    /// Queued messages, front first.
    pub msgs: Seq<Message<T>>,
    /// Set once a side has hung up; it never goes back to false.
    pub port_dropped: bool,
    /// The parked consumer's wake handle; 0 means nobody is parked.
    pub to_wake: usize,
}

/// One `try_recv` step on the abstract state: the state after the step and
/// the outcome. A queued message is always delivered; an empty queue reports
/// `Empty` while connected and `Disconnected` after a hang-up.
pub open spec fn try_recv_model<T>(s: ChannelState<T>) -> (ChannelState<T>, Result<
    T,
    Failure<T>,
>) {
    if s.msgs.len() > 0 {
        let s2 = ChannelState {
            msgs: s.msgs.drop_first(),
            port_dropped: s.port_dropped,
            to_wake: s.to_wake,
        };
        match s.msgs[0] {
            Message::Data(t) => (s2, Ok(t)),
            Message::GoUp(up) => (s2, Err(Failure::Upgraded(up))),
        }
    } else if !s.port_dropped {
        (s, Err(Failure::Empty))
    } else {
        (s, Err(Failure::Disconnected))
    }
}

/// The abstract effect of a successful `send`: the data message is queued
/// and any parked waiter's handle is taken (to be fired by the sender).
pub open spec fn send_model<T>(s: ChannelState<T>, t: T) -> ChannelState<T> {
    ChannelState { msgs: s.msgs.push(Message::Data(t)), port_dropped: s.port_dropped, to_wake: 0 }
}

/// The abstract effect of a successful `upgrade`: as `send_model`, with the
/// control message instead of data.
pub open spec fn upgrade_model<T>(s: ChannelState<T>, up: std::sync::mpsc::Receiver<T>) -> ChannelState<T> {
    ChannelState { msgs: s.msgs.push(Message::GoUp(up)), port_dropped: s.port_dropped, to_wake: 0 }
}

/// A stream channel endpoint pair's shared state: one transport of messages,
/// the disconnect flag, and the parked consumer's wake handle.
#[verifier::reject_recursive_types(T)]
pub struct Packet<Q, T> {
    queue: Q,
    port_dropped: bool,
    to_wake: usize,
    _pd: core::marker::PhantomData<T>,
}

impl<Q, T> Packet<Q, T> where Q: Queue<Message<T>> {
    /// Well-formedness: the transport's own invariant.
    pub closed spec fn wf(&self) -> bool {
        self.queue.inv()
    }

    /// The channel's abstract state.
    pub closed spec fn state(&self) -> ChannelState<T> {
        ChannelState {
            msgs: self.queue.contents(),
            port_dropped: self.port_dropped,
            to_wake: self.to_wake,
        }
    }

    /// Creates a fresh, connected channel with nobody parked.
    pub fn new() -> (p: Self)
        ensures
            p.wf(),
            p.state().msgs == Seq::<Message<T>>::empty(),
            !p.state().port_dropped,
            p.state().to_wake == 0,
    {
        Packet {
            queue: Q::new(128),
            to_wake: 0,
            port_dropped: false,
            _pd: core::marker::PhantomData,
        }
    }

    /// Whether a consumer's wake token is currently registered.
    pub fn waiter_present(&self) -> (b: bool)
        ensures
            b == (self.state().to_wake != 0),
    {
        self.to_wake != 0
    }

    /// Sends `t`. If the other side is already gone the value comes back as
    /// `Err(t)` and nothing changes. Otherwise the value is queued, and any
    /// parked consumer's wake token is returned: the caller must fire it.
    pub fn send(&mut self, t: T) -> (r: (Result<(), T>, Option<SignalToken>))
        requires
            old(self).wf(),
        ensures
            final(self).wf(),
            old(self).state().port_dropped ==> r.0 == Err::<(), T>(t) && r.1 is None && final(self).state() == old(self).state(),
            !old(self).state().port_dropped ==> {
                &&& r.0 == Ok::<(), T>(())
                &&& final(self).state() == send_model(old(self).state(), t)
                &&& (old(self).state().to_wake != 0 ==> (r.1 matches Some(tok) && tok.wf()
                    && tok.spec_handle() == old(self).state().to_wake))
                &&& (old(self).state().to_wake == 0 ==> r.1 is None)
            },
    {
        // If the other port has deterministically gone away, then the data
        // must definitely be returned up the stack; otherwise it counts as
        // sent.
        if self.port_dropped {
            return (Err(t), None);
        }
        let r = self.do_send(Message::Data(t));
        proof {
            assert(final(self).state() =~= send_model(old(self).state(), t));
        }
        match r {
            UpgradeResult::UpSuccess => (Ok(()), None),
            UpgradeResult::UpDisconnected => (Ok(()), None),
            UpgradeResult::UpWoke(token) => (Ok(()), Some(token)),
        }
    }

    /// Pushes the upgrade control message, unless the port is already gone.
    /// On `UpWoke` the caller must fire the returned token.
    pub fn upgrade(&mut self, up: std::sync::mpsc::Receiver<T>) -> (r: UpgradeResult)
        requires
            old(self).wf(),
        ensures
            final(self).wf(),
            old(self).state().port_dropped ==> r == UpgradeResult::UpDisconnected && final(self).state() == old(self).state(),
            !old(self).state().port_dropped ==> {
                &&& final(self).state() == upgrade_model(old(self).state(), up)
                &&& (old(self).state().to_wake != 0 ==> (r matches UpgradeResult::UpWoke(tok)
                    && tok.wf() && tok.spec_handle() == old(self).state().to_wake))
                &&& (old(self).state().to_wake == 0 ==> r == UpgradeResult::UpSuccess)
            },
    {
        // If the port has gone away, there is no need to proceed further.
        if self.port_dropped {
            return UpgradeResult::UpDisconnected;
        }
        let r = self.do_send(Message::GoUp(up));
        proof {
            assert(final(self).state() =~= upgrade_model(old(self).state(), up));
        }
        r
    }

    /// Queues one message and settles the race with a disconnect: if the
    /// port was dropped while the message was in flight, the queue is
    /// drained back (the port never removes anything after hanging up), and
    /// finding more than the one in-flight message would mean the
    /// single-producer contract was broken. Otherwise any parked consumer's
    /// wake token is taken and returned for the caller to fire.
    fn do_send(&mut self, t: Message<T>) -> (r: UpgradeResult)
        requires
            old(self).wf(),
            old(self).state().port_dropped ==> old(self).state().msgs.len() == 0,
        ensures
            final(self).wf(),
            final(self).state().port_dropped == old(self).state().port_dropped,
            old(self).state().port_dropped ==> final(self).state().msgs == old(self).state().msgs && final(self).state().to_wake == old(self).state().to_wake && r
                == UpgradeResult::UpSuccess,
            !old(self).state().port_dropped ==> {
                &&& final(self).state().msgs == old(self).state().msgs.push(t)
                &&& final(self).state().to_wake == 0
                &&& (old(self).state().to_wake != 0 ==> (r matches UpgradeResult::UpWoke(tok)
                    && tok.wf() && tok.spec_handle() == old(self).state().to_wake))
                &&& (old(self).state().to_wake == 0 ==> r == UpgradeResult::UpSuccess)
            },
    {
        self.queue.push(t);
        if self.port_dropped {
            // The port drains everything once dropped, so at most our own
            // in-flight message can be here; two would mean a second
            // producer raced us on a single-producer transport.
            let first = self.queue.pop();
            let second = self.queue.pop();
            proof {
                assert(second is None);
            }
            return match first {
                Some(..) => UpgradeResult::UpSuccess,
                None => UpgradeResult::UpDisconnected,
            };
        }
        match self.try_take_to_wake() {
            Some(token) => UpgradeResult::UpWoke(token),
            None => UpgradeResult::UpSuccess,
        }
    }

    /// Takes ownership of the registered wake token; the caller must fire it.
    pub fn take_to_wake(&mut self) -> (token: SignalToken)
        requires
            old(self).wf(),
            old(self).state().to_wake != 0,
        ensures
            final(self).wf(),
            token.wf(),
            token.spec_handle() == old(self).state().to_wake,
            final(self).state().msgs == old(self).state().msgs,
            final(self).state().port_dropped == old(self).state().port_dropped,
            final(self).state().to_wake == 0,
    {
        let ptr = self.to_wake;
        self.to_wake = 0;
        SignalToken::cast_from_usize(ptr)
    }

    /// Takes ownership of the wake token, if one is registered; the caller
    /// must fire it.
    fn try_take_to_wake(&mut self) -> (r: Option<SignalToken>)
        requires
            old(self).wf(),
        ensures
            final(self).wf(),
            final(self).state().msgs == old(self).state().msgs,
            final(self).state().port_dropped == old(self).state().port_dropped,
            final(self).state().to_wake == 0,
            old(self).state().to_wake == 0 ==> r is None,
            old(self).state().to_wake != 0 ==> (r matches Some(tok) && tok.wf()
                && tok.spec_handle() == old(self).state().to_wake),
    {
        let ptr = self.to_wake;
        self.to_wake = 0;
        if ptr == 0 {
            None
        } else {
            Some(SignalToken::cast_from_usize(ptr))
        }
    }

    /// Registers the consumer's wake token before it parks, then re-polls to
    /// close the race between the earlier empty poll and the registration:
    /// data found means no parking (the token's handle comes back inside the
    /// packet no longer registered); a disconnect hands the token back so
    /// the caller does not park forever.
    pub fn decrement(&mut self, token: SignalToken) -> (r: Result<Option<T>, SignalToken>)
        requires
            old(self).wf(),
            token.wf(),
            old(self).state().to_wake == 0,
            old(self).state().msgs.len() > 0 ==> !(old(self).state().msgs[0] is GoUp),
        ensures
            final(self).wf(),
            final(self).state().port_dropped == old(self).state().port_dropped,
            old(self).state().msgs.len() > 0 ==> {
                &&& r matches Ok(Some(t)) && old(self).state().msgs[0] == Message::Data(t)
                &&& final(self).state().msgs == old(self).state().msgs.drop_first()
                &&& final(self).state().to_wake == 0
            },
            old(self).state().msgs.len() == 0 && !old(self).state().port_dropped ==> {
                &&& r == Ok::<Option<T>, SignalToken>(None)
                &&& final(self).state().msgs == old(self).state().msgs
                &&& final(self).state().to_wake == token.spec_handle()
            },
            old(self).state().msgs.len() == 0 && old(self).state().port_dropped ==> {
                &&& r matches Err(t2) && t2.wf() && t2.spec_handle() == token.spec_handle()
                &&& final(self).state().msgs == old(self).state().msgs
                &&& final(self).state().to_wake == 0
            },
    {
        let ptr = token.cast_to_usize();
        self.to_wake = ptr;
        match self.try_recv() {
            Ok(data) => {
                self.to_wake = 0;
                Ok(Some(data))
            },
            Err(Failure::Upgraded(_)) => unreached(),
            Err(Failure::Empty) | Err(Failure::Disconnected) => {
                if self.port_dropped {
                    self.to_wake = 0;
                    Err(SignalToken::cast_from_usize(ptr))
                } else {
                    Ok(None)
                }
            },
        }
    }

    /// Pops one message and classifies it. A queued value is delivered even
    /// after a disconnect; `GoUp` surfaces as `Upgraded`. On an empty queue,
    /// a connected channel reports `Empty`; a disconnected one pops once
    /// more, delivering a message a sender had in flight at the instant of
    /// the hang-up, and reports `Disconnected` only when truly empty.
    pub fn try_recv(&mut self) -> (r: Result<T, Failure<T>>)
        requires
            old(self).wf(),
        ensures
            final(self).wf(),
            final(self).state() == try_recv_model(old(self).state()).0,
            r == try_recv_model(old(self).state()).1,
    {
        match self.queue.pop() {
            Some(data) => {
                proof {
                    assert(final(self).state() =~= try_recv_model(old(self).state()).0);
                }
                match data {
                    Message::Data(t) => Ok(t),
                    Message::GoUp(up) => Err(Failure::Upgraded(up)),
                }
            },
            None => {
                if !self.port_dropped {
                    proof {
                        assert(final(self).state() =~= try_recv_model(old(self).state()).0);
                    }
                    return Err(Failure::Empty);
                }
                // One more pop resolves a send that was in flight the
                // instant the disconnect was observed; with exclusive
                // access the queue is still empty.
                let again = self.queue.pop();
                proof {
                    assert(again is None);
                    assert(final(self).state() =~= try_recv_model(old(self).state()).0);
                }
                match again {
                    Some(Message::Data(t)) => Ok(t),
                    Some(Message::GoUp(up)) => Err(Failure::Upgraded(up)),
                    None => Err(Failure::Disconnected),
                }
            },
        }
    }

    /// Drops the one sender: flags the channel disconnected and takes any
    /// parked consumer's wake token, which the caller must fire so a blocked
    /// consumer observes the disconnect promptly.
    pub fn drop_chan(&mut self) -> (r: Option<SignalToken>)
        requires
            old(self).wf(),
        ensures
            final(self).wf(),
            final(self).state().msgs == old(self).state().msgs,
            final(self).state().port_dropped,
            final(self).state().to_wake == 0,
            old(self).state().to_wake == 0 ==> r is None,
            old(self).state().to_wake != 0 ==> (r matches Some(tok) && tok.wf()
                && tok.spec_handle() == old(self).state().to_wake),
    {
        self.port_dropped = true;
        self.try_take_to_wake()
    }

    /// Drops the one receiver: flags the channel disconnected, gating all
    /// future sends, then drains the queue to empty so no upgraded receiver
    /// stays reachable only through this channel.
    pub fn drop_port(&mut self)
        requires
            old(self).wf(),
        ensures
            final(self).wf(),
            final(self).state().msgs.len() == 0,
            final(self).state().port_dropped,
            final(self).state().to_wake == old(self).state().to_wake,
    {
        // All sends are gated on this flag, so from here on only a bounded
        // number of in-flight sends can still land.
        self.port_dropped = true;
        loop
            invariant
                self.wf(),
                self.port_dropped,
                self.to_wake == old(self).to_wake,
            ensures
                self.wf(),
                self.port_dropped,
                self.to_wake == old(self).to_wake,
                self.queue.contents().len() == 0,
            decreases self.queue.contents().len(),
        {
            match self.queue.pop() {
                Some(_) => {},
                None => {
                    break ;
                },
            }
        }
    }

    /// Teardown check: when the packet itself is destroyed, no wake token
    /// may still be registered — one left behind would mean a missed wakeup
    /// or a double registration.
    pub fn drop(&mut self)
        requires
            old(self).state().to_wake == 0,
    {
        proof {
            assert(self.to_wake == 0);
        }
    }
}

/// Outcomes of `n` successive `try_recv` steps on abstract state `s`.
pub open spec fn drain_outcomes<T>(s: ChannelState<T>, n: nat) -> Seq<Result<T, Failure<T>>>
    decreases n,
{
    if n == 0 {
        Seq::empty()
    } else {
        seq![try_recv_model(s).1] + drain_outcomes(try_recv_model(s).0, (n - 1) as nat)
    }
}

/// `drain_outcomes` yields one outcome per step.
pub proof fn lemma_drain_outcomes_len<T>(s: ChannelState<T>, n: nat)
    ensures
        drain_outcomes(s, n).len() == n,
    decreases n,
{
    if n > 0 {
        lemma_drain_outcomes_len(try_recv_model(s).0, (n - 1) as nat);
    }
}

/// On an empty, still-connected channel every receive reports `Empty` and
/// changes nothing.
pub proof fn lemma_empty_connected_stays_empty<T>(s: ChannelState<T>, n: nat)
    requires
        s.msgs.len() == 0,
        !s.port_dropped,
    ensures
        forall|k: int|
            0 <= k < n ==> drain_outcomes(s, n)[k] == Err::<T, Failure<T>>(Failure::Empty),
    decreases n,
{
    lemma_drain_outcomes_len(s, n);
    if n > 0 {
        lemma_empty_connected_stays_empty(s, (n - 1) as nat);
        lemma_drain_outcomes_len(s, (n - 1) as nat);
        assert forall|k: int|
            0 <= k < n implies drain_outcomes(s, n)[k] == Err::<T, Failure<T>>(
            Failure::Empty,
        ) by {
            if k > 0 {
                assert(drain_outcomes(s, n)[k] == drain_outcomes(s, (n - 1) as nat)[k - 1]);
            }
        }
    }
}

/// Channel disconnect: with the channel flagged disconnected and a backlog
/// of data messages still queued, successive receives deliver the whole
/// backlog first, in order, and every further receive reports
/// `Disconnected`.
pub proof fn lemma_disconnect_delivers_backlog<T>(s: ChannelState<T>, n: nat)
    requires
        s.port_dropped,
        forall|k: int| 0 <= k < s.msgs.len() ==> s.msgs[k] is Data,
        n >= s.msgs.len(),
    ensures
        forall|k: int|
            0 <= k < s.msgs.len() ==> drain_outcomes(s, n)[k] == Ok::<T, Failure<T>>(
                s.msgs[k]->Data_0,
            ),
        forall|k: int|
            s.msgs.len() <= k < n ==> drain_outcomes(s, n)[k] == Err::<T, Failure<T>>(
                Failure::Disconnected,
            ),
    decreases n,
{
    lemma_drain_outcomes_len(s, n);
    if n > 0 {
        let s2 = try_recv_model(s).0;
        lemma_drain_outcomes_len(s2, (n - 1) as nat);
        if s.msgs.len() > 0 {
            assert(s.msgs[0] is Data);
            lemma_disconnect_delivers_backlog(s2, (n - 1) as nat);
            assert forall|k: int|
                0 <= k < s.msgs.len() implies drain_outcomes(s, n)[k] == Ok::<T, Failure<T>>(
                s.msgs[k]->Data_0,
            ) by {
                if k > 0 {
                    assert(drain_outcomes(s, n)[k] == drain_outcomes(s2, (n - 1) as nat)[k - 1]);
                    assert(s2.msgs[k - 1] == s.msgs[k]);
                }
            }
            assert forall|k: int|
                s.msgs.len() <= k < n implies drain_outcomes(s, n)[k] == Err::<T, Failure<T>>(
                Failure::Disconnected,
            ) by {
                assert(drain_outcomes(s, n)[k] == drain_outcomes(s2, (n - 1) as nat)[k - 1]);
            }
        } else {
            lemma_disconnect_delivers_backlog(s2, (n - 1) as nat);
            assert forall|k: int|
                s.msgs.len() <= k < n implies drain_outcomes(s, n)[k] == Err::<T, Failure<T>>(
                Failure::Disconnected,
            ) by {
                if k > 0 {
                    assert(drain_outcomes(s, n)[k] == drain_outcomes(s2, (n - 1) as nat)[k - 1]);
                }
            }
        }
    }
}

/// Upgrade hand-off: pushing the upgrade message through a connected channel
/// whose backlog holds no other upgrade, then receiving repeatedly, delivers
/// the backlog first, then reports `Upgraded` with that very receiver
/// exactly once — every further receive reports `Empty`, so nothing sent
/// before the upgrade is ever delivered after it through this transport.
pub proof fn lemma_upgrade_handoff<T>(
    s: ChannelState<T>,
    up: std::sync::mpsc::Receiver<T>,
    n: nat,
)
    requires
        !s.port_dropped,
        forall|k: int| 0 <= k < s.msgs.len() ==> s.msgs[k] is Data,
        n > s.msgs.len(),
    ensures
        forall|k: int|
            0 <= k < s.msgs.len() ==> drain_outcomes(upgrade_model(s, up), n)[k] == Ok::<
                T,
                Failure<T>,
            >(s.msgs[k]->Data_0),
        drain_outcomes(upgrade_model(s, up), n)[s.msgs.len() as int] == Err::<T, Failure<T>>(
            Failure::Upgraded(up),
        ),
        forall|k: int|
            s.msgs.len() < k < n ==> drain_outcomes(upgrade_model(s, up), n)[k] == Err::<
                T,
                Failure<T>,
            >(Failure::Empty),
    decreases n,
{
    let s1 = upgrade_model(s, up);
    lemma_drain_outcomes_len(s1, n);
    let s2 = try_recv_model(s1).0;
    lemma_drain_outcomes_len(s2, (n - 1) as nat);
    if s.msgs.len() > 0 {
        assert(s.msgs[0] is Data);
        assert(s1.msgs[0] == s.msgs[0]);
        let st = ChannelState {
            msgs: s.msgs.drop_first(),
            port_dropped: s.port_dropped,
            to_wake: s.to_wake,
        };
        assert(s2 =~= upgrade_model(st, up)) by {
            assert(s2.msgs =~= st.msgs.push(Message::GoUp(up)));
        }
        lemma_upgrade_handoff(st, up, (n - 1) as nat);
        assert forall|k: int|
            0 <= k < s.msgs.len() implies drain_outcomes(s1, n)[k] == Ok::<T, Failure<T>>(
            s.msgs[k]->Data_0,
        ) by {
            if k > 0 {
                assert(drain_outcomes(s1, n)[k] == drain_outcomes(s2, (n - 1) as nat)[k - 1]);
                assert(st.msgs[k - 1] == s.msgs[k]);
            }
        }
        assert(drain_outcomes(s1, n)[s.msgs.len() as int] == drain_outcomes(s2, (n - 1) as nat)[
            s.msgs.len() - 1]);
        assert forall|k: int|
            s.msgs.len() < k < n implies drain_outcomes(s1, n)[k] == Err::<T, Failure<T>>(
            Failure::Empty,
        ) by {
            assert(drain_outcomes(s1, n)[k] == drain_outcomes(s2, (n - 1) as nat)[k - 1]);
        }
    } else {
        assert(s1.msgs.len() == 1);
        assert(s1.msgs[0] == Message::GoUp(up));
        assert(drain_outcomes(s1, n)[0] == Err::<T, Failure<T>>(Failure::Upgraded(up)));
        assert(s2.msgs =~= Seq::<Message<T>>::empty());
        lemma_empty_connected_stays_empty(s2, (n - 1) as nat);
        assert forall|k: int|
            s.msgs.len() < k < n implies drain_outcomes(s1, n)[k] == Err::<T, Failure<T>>(
            Failure::Empty,
        ) by {
            assert(drain_outcomes(s1, n)[k] == drain_outcomes(s2, (n - 1) as nat)[k - 1]);
        }
    }
}

} // verus!
