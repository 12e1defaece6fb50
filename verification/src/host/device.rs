//! The device seam: whole IP packets and a packet size, and nothing else.
//!
//! `SimDevice` is an in-memory wire with virtual time, scripted loss and
//! reordering, the same for the same seed.

use vstd::prelude::*;

use crate::fields::bytes_of;
use crate::l3::emit::put;
use crate::plan::Mtu;
#[allow(unused_imports)]
use crate::text;

verus! {

/// Why a device gave no packet.
#[derive(Clone, Copy, Debug, PartialEq, Eq, Structural)]
pub enum DeviceError {
    /// None is due.
    WouldBlock,
    /// The packet does not fit the buffer, and is gone.
    InvalidData,
}

/// A device for raw IP packets.
pub trait Device {
    fn recv(&mut self, buf: &mut [u8]) -> Result<usize, DeviceError>;

    /// Writes one whole packet.
    fn send(&mut self, buf: &[u8]) -> Result<(), DeviceError>;

    fn mtu(&self) -> Mtu;
}

/// The generator's state after one more draw.
pub open spec fn next_seed(seed: u64) -> u64 {
    ((seed + 0x9e37_79b9_7f4a_7c15) % 0x1_0000_0000_0000_0000) as u64
}

/// The low bits of a product.
pub open spec fn low_product(a: u64, b: u64) -> u64 {
    ((a * b) % 0x1_0000_0000_0000_0000) as u64
}

/// The number that a state stands for.
pub open spec fn mixed(state: u64) -> u64 {
    let a = low_product(state ^ (state >> 30), 0xbf58_476d_1ce4_e5b9);
    let b = low_product(a ^ (a >> 27), 0x94d0_49bb_1331_11eb);
    b ^ (b >> 31)
}

/// One draw below `rate`.
pub open spec fn draw(seed: u64, rate: u64) -> u64 {
    mixed(next_seed(seed)) % rate
}

/// A generator that is wholly decided by its seed.
pub struct Rng(pub u64);

impl Rng {
    pub fn next(&mut self) -> (r: u64)
        ensures
            final(self).0 == next_seed(old(self).0),
            r == mixed(next_seed(old(self).0)),
    {
        self.0 = self.0.wrapping_add(0x9e37_79b9_7f4a_7c15);
        let z: u64 = self.0;
        let a: u64 = (z ^ (z >> 30)).wrapping_mul(0xbf58_476d_1ce4_e5b9);
        let b: u64 = (a ^ (a >> 27)).wrapping_mul(0x94d0_49bb_1331_11eb);
        b ^ (b >> 31)
    }

    /// A number below `rate`.
    pub fn below(&mut self, rate: u64) -> (r: u64)
        requires
            rate > 0,
        ensures
            final(self).0 == next_seed(old(self).0),
            r == draw(old(self).0, rate),
            r < rate,
    {
        self.next() % rate
    }
}

/// A packet and the tick it is due at.
pub struct Due {
    pub tick: u64,
    pub packet: Seq<u8>,
}

/// Where a simulated wire stands.
pub struct Wire {
    pub seed: u64,
    pub now: u64,
    /// What is due, earliest first.
    pub inbound: Seq<Due>,
    pub sent: Seq<Seq<u8>>,
    pub loss_in: u64,
    pub loss_out: u64,
    pub reorder_window: u64,
}

/// What is due with one packet more: behind all that is due no later.
pub open spec fn scheduled(inbound: Seq<Due>, due: Due) -> Seq<Due>
    decreases inbound.len(),
{
    if inbound.len() == 0 {
        seq![due]
    } else if inbound.last().tick <= due.tick {
        inbound.push(due)
    } else {
        scheduled(inbound.drop_last(), due).push(inbound.last())
    }
}

/// Whether what is due stands earliest first.
pub open spec fn in_order(inbound: Seq<Due>) -> bool {
    forall|i: int, j: int|
        0 <= i < j < inbound.len() ==> (#[trigger] inbound[i]).tick <= (#[trigger] inbound[j]).tick
}

/// A wire after a packet was put on it.
pub open spec fn injected(w: Wire, packet: Seq<u8>, delay: u64) -> Wire {
    let jitter = if w.reorder_window > 0 {
        draw(w.seed, (w.reorder_window + 1) as u64)
    } else {
        0
    };
    Wire {
        seed: if w.reorder_window > 0 {
            next_seed(w.seed)
        } else {
            w.seed
        },
        inbound: scheduled(
            w.inbound,
            Due { tick: (w.now + delay + jitter) as u64, packet },
        ),
        ..w
    }
}

/// Whether a wire loses what it is asked for, and its seed after that was
/// drawn.
pub open spec fn loses(seed: u64, rate: u64) -> (bool, u64) {
    if rate > 0 {
        (draw(seed, rate) == 0, next_seed(seed))
    } else {
        (false, seed)
    }
}

/// A read from a wire into a buffer of `room` bytes. A lost packet is the
/// earliest, due or not.
pub open spec fn received(w: Wire, room: int) -> (Wire, Result<Seq<u8>, DeviceError>) {
    let (lost, seed) = loses(w.seed, w.loss_in);
    let drawn = Wire { seed, ..w };
    if w.inbound.len() == 0 {
        (drawn, Err(DeviceError::WouldBlock))
    } else if lost {
        (Wire { inbound: w.inbound.skip(1), ..drawn }, Err(DeviceError::WouldBlock))
    } else if w.inbound[0].tick > w.now {
        (drawn, Err(DeviceError::WouldBlock))
    } else if w.inbound[0].packet.len() > room {
        (Wire { inbound: w.inbound.skip(1), ..drawn }, Err(DeviceError::InvalidData))
    } else {
        (Wire { inbound: w.inbound.skip(1), ..drawn }, Ok(w.inbound[0].packet))
    }
}

/// A write to a wire.
pub open spec fn written(w: Wire, packet: Seq<u8>) -> Wire {
    let (lost, seed) = loses(w.seed, w.loss_out);
    if lost {
        Wire { seed, ..w }
    } else {
        Wire { seed, sent: w.sent.push(packet), ..w }
    }
}

/// An in-memory wire.
pub struct SimDevice {
    mtu: Mtu,
    rng: Rng,
    inbound: Vec<(u64, Vec<u8>)>,
    sent: Vec<Vec<u8>>,
    now: u64,
    loss_in: u64,
    loss_out: u64,
    reorder_window: u64,
}

/// What a list of entries is due for.
pub open spec fn dues(entries: Seq<(u64, Vec<u8>)>) -> Seq<Due> {
    Seq::new(entries.len(), |i: int| Due { tick: entries[i].0, packet: entries[i].1@ })
}

impl View for SimDevice {
    type V = Wire;

    closed spec fn view(&self) -> Wire {
        Wire {
            seed: self.rng.0,
            now: self.now,
            inbound: dues(self.inbound@),
            sent: text::views(self.sent@),
            loss_in: self.loss_in,
            loss_out: self.loss_out,
            reorder_window: self.reorder_window,
        }
    }
}

impl SimDevice {
    pub closed spec fn size(&self) -> Mtu {
        self.mtu
    }

    pub fn new(mtu: Mtu, seed: u64) -> (r: Self)
        ensures
            r.size() == mtu,
            r@ == (Wire {
                seed,
                now: 0,
                inbound: Seq::empty(),
                sent: Seq::empty(),
                loss_in: 0,
                loss_out: 0,
                reorder_window: 0,
            }),
    {
        let r = SimDevice {
            mtu,
            rng: Rng(seed),
            inbound: Vec::new(),
            sent: Vec::new(),
            now: 0,
            loss_in: 0,
            loss_out: 0,
            reorder_window: 0,
        };
        proof {
            assert(r@.inbound =~= Seq::empty());
            assert(r@.sent =~= Seq::empty());
        }
        r
    }

    /// Loses one in `rate` of what comes in; none where it is zero.
    pub fn with_loss_in(self, rate: u64) -> (r: Self)
        ensures
            r.size() == self.size(),
            r@ == (Wire { loss_in: rate, ..self@ }),
    {
        let mut r: Self = self;
        r.loss_in = rate;
        r
    }

    /// Loses one in `rate` of what goes out; none where it is zero.
    pub fn with_loss_out(self, rate: u64) -> (r: Self)
        ensures
            r.size() == self.size(),
            r@ == (Wire { loss_out: rate, ..self@ }),
    {
        let mut r: Self = self;
        r.loss_out = rate;
        r
    }

    /// Delays what comes in by up to `ticks` more than asked.
    pub fn with_reorder_window(self, ticks: u64) -> (r: Self)
        ensures
            r.size() == self.size(),
            r@ == (Wire { reorder_window: ticks, ..self@ }),
    {
        let mut r: Self = self;
        r.reorder_window = ticks;
        r
    }

    /// Puts a packet on the wire, due after `delay` ticks and any jitter.
    pub fn inject(&mut self, packet: &[u8], delay: u64)
        requires
            old(self)@.now + delay + old(self)@.reorder_window <= u64::MAX,
            old(self)@.reorder_window < u64::MAX,
        ensures
            final(self).size() == old(self).size(),
            final(self)@ == injected(old(self)@, packet@, delay),
    {
        let jitter: u64 = if self.reorder_window > 0 {
            self.rng.below(self.reorder_window + 1)
        } else {
            0
        };
        let tick: u64 = self.now + delay + jitter;
        let ghost all = dues(self.inbound@);
        let ghost due = Due { tick, packet: packet@ };
        let ghost held = *self;
        let mut i: usize = self.inbound.len();
        proof {
            assert(all.take(i as int) =~= all);
            assert(scheduled(all.take(i as int), due) + all.skip(i as int) =~= scheduled(all, due));
        }
        while i > 0 && self.inbound[i - 1].0 > tick
            invariant
                i <= self.inbound@.len(),
                *self == held,
                all == dues(self.inbound@),
                due.tick == tick,
                scheduled(all.take(i as int), due) + all.skip(i as int) == scheduled(all, due),
            decreases i,
        {
            proof {
                let t = all.take(i as int);
                assert(t.drop_last() =~= all.take(i - 1));
                assert(scheduled(all.take(i - 1), due).push(t.last()) + all.skip(i as int)
                    =~= scheduled(all.take(i - 1), due) + all.skip(i - 1));
            }
            i -= 1;
        }
        proof {
            let t = all.take(i as int);
            if i > 0 {
                assert(t.last() == all[i - 1]);
            }
            assert(scheduled(t, due) =~= t.push(due));
        }
        self.inbound.insert(i, (tick, bytes_of(packet)));
        proof {
            assert(dues(self.inbound@) =~= all.take(i as int).push(due) + all.skip(i as int));
        }
    }

    /// Moves virtual time on by `ticks`.
    pub fn advance(&mut self, ticks: u64)
        requires
            old(self)@.now + ticks <= u64::MAX,
        ensures
            final(self).size() == old(self).size(),
            final(self)@ == (Wire { now: (old(self)@.now + ticks) as u64, ..old(self)@ }),
    {
        self.now = self.now + ticks;
    }

    /// Sets virtual time.
    pub fn advance_to(&mut self, tick: u64)
        ensures
            final(self).size() == old(self).size(),
            final(self)@ == (Wire { now: tick, ..old(self)@ }),
    {
        self.now = tick;
    }

    /// Changes the packet size of the wire.
    pub fn set_mtu(&mut self, mtu: Mtu)
        ensures
            final(self).size() == mtu,
            final(self)@ == old(self)@,
    {
        self.mtu = mtu;
    }

    /// What was sent so far.
    pub fn sent(&self) -> (r: &[Vec<u8>])
        ensures
            text::views(r@) == self@.sent,
    {
        self.sent.as_slice()
    }

    /// The earliest tick that something is due at.
    pub fn next_delivery(&self) -> (r: Option<u64>)
        ensures
            r == (if self@.inbound.len() > 0 {
                Some(self@.inbound[0].tick)
            } else {
                None
            }),
    {
        if self.inbound.len() > 0 {
            Some(self.inbound[0].0)
        } else {
            None
        }
    }
}

impl Device for SimDevice {
    fn recv(&mut self, buf: &mut [u8]) -> (r: Result<usize, DeviceError>)
        ensures
            final(self).size() == old(self).size(),
            final(self)@ == received(old(self)@, old(buf)@.len() as int).0,
            match received(old(self)@, old(buf)@.len() as int).1 {
                Ok(packet) => r == Ok::<usize, DeviceError>(packet.len() as usize) && final(buf)@
                    == packet + old(buf)@.skip(packet.len() as int),
                Err(e) => r == Err::<usize, DeviceError>(e) && final(buf)@ == old(buf)@,
            },
    {
        let lost: bool = self.loss_in > 0 && self.rng.below(self.loss_in) == 0;
        let ghost all = dues(self.inbound@);
        if self.inbound.len() == 0 {
            return Err(DeviceError::WouldBlock);
        }
        if !lost && self.inbound[0].0 > self.now {
            return Err(DeviceError::WouldBlock);
        }
        let (_, packet) = self.inbound.remove(0);
        assert(dues(self.inbound@) =~= all.skip(1));
        if lost {
            return Err(DeviceError::WouldBlock);
        }
        if packet.len() > buf.len() {
            return Err(DeviceError::InvalidData);
        }
        let n: usize = packet.len();
        put(buf, 0, packet.as_slice());
        assert(buf@ =~= packet@ + old(buf)@.skip(packet@.len() as int));
        Ok(n)
    }

    fn send(&mut self, buf: &[u8]) -> (r: Result<(), DeviceError>)
        ensures
            r is Ok,
            final(self).size() == old(self).size(),
            final(self)@ == written(old(self)@, buf@),
    {
        let ghost before = self.sent@;
        if self.loss_out > 0 && self.rng.below(self.loss_out) == 0 {
            return Ok(());
        }
        self.sent.push(bytes_of(buf));
        assert(text::views(self.sent@) =~= text::views(before).push(buf@));
        Ok(())
    }

    fn mtu(&self) -> (r: Mtu)
        ensures
            r == self.size(),
    {
        self.mtu
    }
}

/// Putting a packet on the wire keeps everything earliest first, loses nothing
/// and delivers it behind all that is due no later.
pub proof fn a_wire_delivers_in_order(inbound: Seq<Due>, due: Due)
    requires
        in_order(inbound),
    ensures
        in_order(scheduled(inbound, due)),
        scheduled(inbound, due).len() == inbound.len() + 1,
        scheduled(inbound, due).to_multiset() == inbound.to_multiset().insert(due),
    decreases inbound.len(),
{
    broadcast use vstd::seq_lib::group_to_multiset_ensures;

    let s = scheduled(inbound, due);
    if inbound.len() == 0 {
        assert(s =~= inbound.push(due));
    } else if inbound.last().tick <= due.tick {
        assert forall|i: int, j: int| 0 <= i < j < s.len() implies (#[trigger] s[i]).tick <= (
        #[trigger] s[j]).tick by {
            if j == inbound.len() {
                assert(inbound[i].tick <= inbound[inbound.len() - 1].tick);
            }
        }
    } else {
        let rest = inbound.drop_last();
        a_wire_delivers_in_order(rest, due);
        let p = scheduled(rest, due);
        assert(inbound =~= rest.push(inbound.last()));
        assert forall|i: int| 0 <= i < p.len() implies (#[trigger] p[i]).tick
            <= inbound.last().tick by {
            assert(p.to_multiset().contains(p[i]));
            if p[i] != due {
                assert(rest.to_multiset().contains(p[i]));
                assert(rest.contains(p[i]));
                let k = choose|k: int| 0 <= k < rest.len() && rest[k] == p[i];
                assert(inbound[k].tick <= inbound[inbound.len() - 1].tick);
            }
        }
        assert forall|i: int, j: int| 0 <= i < j < s.len() implies (#[trigger] s[i]).tick <= (
        #[trigger] s[j]).tick by {
            if j < p.len() {
                assert(p[i].tick <= p[j].tick);
            } else {
                assert(p[i].tick <= inbound.last().tick);
            }
        }
    }
}

/// How much of what stands earliest first is due by a tick.
pub open spec fn due_by(inbound: Seq<Due>, tick: int) -> int
    decreases inbound.len(),
{
    if inbound.len() == 0 {
        0
    } else if inbound.last().tick <= tick {
        inbound.len() as int
    } else {
        due_by(inbound.drop_last(), tick)
    }
}

/// What is due by a tick is exactly the front.
proof fn lemma_due_by(inbound: Seq<Due>, tick: int)
    requires
        in_order(inbound),
    ensures
        0 <= due_by(inbound, tick) <= inbound.len(),
        forall|i: int|
            0 <= i < inbound.len() ==> ((#[trigger] inbound[i]).tick <= tick <==> i < due_by(
                inbound,
                tick,
            )),
    decreases inbound.len(),
{
    if inbound.len() > 0 {
        let n = inbound.len() - 1;
        if inbound.last().tick <= tick {
            assert forall|i: int| 0 <= i < inbound.len() implies (#[trigger] inbound[i]).tick <= tick by {
                if i < n {
                    assert(inbound[i].tick <= inbound[n].tick);
                }
            }
        } else {
            lemma_due_by(inbound.drop_last(), tick);
            assert forall|i: int| 0 <= i < inbound.len() implies ((#[trigger] inbound[i]).tick <= tick
                <==> i < due_by(inbound, tick)) by {
                if i < n {
                    assert(inbound.drop_last()[i] == inbound[i]);
                }
            }
        }
    }
}

/// A packet is scheduled behind all that is due no later, and before the rest.
proof fn lemma_scheduled(inbound: Seq<Due>, due: Due)
    requires
        in_order(inbound),
    ensures
        scheduled(inbound, due) == inbound.take(due_by(inbound, due.tick as int)).push(due)
            + inbound.skip(due_by(inbound, due.tick as int)),
    decreases inbound.len(),
{
    let turn = due_by(inbound, due.tick as int);
    lemma_due_by(inbound, due.tick as int);
    if inbound.len() == 0 {
        assert(scheduled(inbound, due) =~= inbound.take(turn).push(due) + inbound.skip(turn));
    } else if inbound.last().tick <= due.tick {
        assert(scheduled(inbound, due) =~= inbound.take(turn).push(due) + inbound.skip(turn));
    } else {
        let rest = inbound.drop_last();
        lemma_scheduled(rest, due);
        lemma_due_by(rest, due.tick as int);
        assert(rest.take(turn) =~= inbound.take(turn));
        assert(scheduled(inbound, due) =~= inbound.take(turn).push(due) + inbound.skip(turn));
    }
}

/// What a number of reads gives, each into a buffer of `room` bytes.
pub open spec fn read_times(w: Wire, n: nat, room: int) -> (Wire, Seq<Result<Seq<u8>, DeviceError>>)
    decreases n,
{
    if n == 0 {
        (w, seq![])
    } else {
        let (before, got) = read_times(w, (n - 1) as nat, room);
        let (after, one) = received(before, room);
        (after, got.push(one))
    }
}

/// Reading delivers what is due byte for byte, earliest first, each once; and
/// then nothing, until time moves on. Nothing else changes.
pub proof fn reads_deliver_what_is_due(w: Wire, n: nat, room: int)
    requires
        in_order(w.inbound),
        w.loss_in == 0,
        forall|i: int| 0 <= i < w.inbound.len() ==> (#[trigger] w.inbound[i]).packet.len() <= room,
    ensures
        ({
            let (after, got) = read_times(w, n, room);
            let due = due_by(w.inbound, w.now as int);
            let taken = if n < due {
                n as int
            } else {
                due
            };
            &&& got.len() == n
            &&& forall|i: int| 0 <= i < taken ==> #[trigger] got[i] == Ok::<Seq<u8>, DeviceError>(
                w.inbound[i].packet,
            )
            &&& forall|i: int| taken <= i < n ==> #[trigger] got[i] == Err::<Seq<u8>, DeviceError>(
                DeviceError::WouldBlock,
            )
            &&& after == (Wire { inbound: w.inbound.skip(taken), ..w })
        }),
    decreases n,
{
    lemma_due_by(w.inbound, w.now as int);
    let due = due_by(w.inbound, w.now as int);
    if n == 0 {
        assert(w.inbound.skip(0) =~= w.inbound);
    } else {
        let m = (n - 1) as nat;
        reads_deliver_what_is_due(w, m, room);
        let (before, got) = read_times(w, m, room);
        let taken = if m < due {
            m as int
        } else {
            due
        };
        assert(before.inbound == w.inbound.skip(taken));
        if taken < w.inbound.len() {
            assert(before.inbound[0] == w.inbound[taken]);
            assert(before.inbound.skip(1) =~= w.inbound.skip(taken + 1));
        }
    }
}

/// A packet that is put on a wire without loss or jitter is delivered at no tick
/// before its own, and from then on in its turn: behind everything of an earlier
/// tick, and behind what was put there before it for the same tick.
pub proof fn a_packet_is_delivered_in_its_turn(
    w: Wire,
    packet: Seq<u8>,
    delay: u64,
    at: u64,
    n: nat,
    room: int,
)
    requires
        in_order(w.inbound),
        w.loss_in == 0,
        w.reorder_window == 0,
        w.now + delay <= u64::MAX,
        packet.len() <= room,
        forall|i: int| 0 <= i < w.inbound.len() ==> (#[trigger] w.inbound[i]).packet.len() <= room,
    ensures
        ({
            let after = injected(w, packet, delay);
            let tick = w.now + delay;
            let turn = due_by(w.inbound, tick);
            let got = read_times(Wire { now: at, ..after }, n, room).1;
            &&& in_order(after.inbound)
            &&& after.sent == w.sent
            &&& after.inbound == w.inbound.take(turn).push(Due { tick: tick as u64, packet })
                + w.inbound.skip(turn)
            &&& after.inbound[0].tick == (if w.inbound.len() > 0 && w.inbound[0].tick <= tick {
                w.inbound[0].tick as int
            } else {
                tick
            })
            &&& at < tick ==> forall|i: int|
                0 <= i < n && #[trigger] got[i] is Ok ==> i < turn && got[i] == Ok::<
                    Seq<u8>,
                    DeviceError,
                >(w.inbound[i].packet)
            &&& at >= tick && n > turn ==> got[turn] == Ok::<Seq<u8>, DeviceError>(packet)
        }),
{
    let tick = w.now + delay;
    let due = Due { tick: tick as u64, packet };
    let turn = due_by(w.inbound, tick);
    let after = injected(w, packet, delay);
    lemma_due_by(w.inbound, tick);
    lemma_scheduled(w.inbound, due);
    a_wire_delivers_in_order(w.inbound, due);
    let later = Wire { now: at, ..after };
    assert forall|i: int| 0 <= i < later.inbound.len() implies (#[trigger] later.inbound[i]).packet.len()
        <= room by {
        if i < turn {
            assert(later.inbound[i] == w.inbound[i]);
        } else if i > turn {
            assert(later.inbound[i] == w.inbound[i - 1]);
        }
    }
    lemma_due_by(later.inbound, at as int);
    reads_deliver_what_is_due(later, n, room);
    assert(later.inbound[turn] == due);
    let ready = due_by(later.inbound, at as int);
    let got = read_times(later, n, room).1;
    if at < tick {
        assert(ready <= turn);
        assert forall|i: int| 0 <= i < n && #[trigger] got[i] is Ok implies i < turn && got[i] == Ok::<
            Seq<u8>,
            DeviceError,
        >(w.inbound[i].packet) by {
            assert(i < ready);
            assert(later.inbound[i] == w.inbound[i]);
        }
    } else {
        assert(turn < ready);
    }
    if turn > 0 {
        assert(after.inbound[0] == w.inbound[0]);
    } else if w.inbound.len() > 0 {
        assert(w.inbound[0].tick > tick);
    }
}

/// When the packets of a list, each with its delay, come to be due on a wire
/// that adds jitter.
pub open spec fn jittered(seed: u64, now: u64, window: u64, list: Seq<(Seq<u8>, u64)>) -> (
    u64,
    Seq<Due>,
)
    decreases list.len(),
{
    if list.len() == 0 {
        (seed, seq![])
    } else {
        let (before, dues) = jittered(seed, now, window, list.drop_last());
        let (packet, delay) = list.last();
        let (jitter, after) = if window > 0 {
            (draw(before, (window + 1) as u64), next_seed(before))
        } else {
            (0, before)
        };
        (after, dues.push(Due { tick: (now + delay + jitter) as u64, packet }))
    }
}

/// A wire after a list of packets, each with its delay, was put on it.
pub open spec fn injected_all(w: Wire, list: Seq<(Seq<u8>, u64)>) -> Wire
    decreases list.len(),
{
    if list.len() == 0 {
        w
    } else {
        injected(injected_all(w, list.drop_last()), list.last().0, list.last().1)
    }
}

/// Jitter loses and adds nothing, and delays each packet by no more than its
/// window. The seed alone decides by how much, so equal seeds give equal runs.
pub proof fn jitter_only_delays(w: Wire, list: Seq<(Seq<u8>, u64)>)
    requires
        in_order(w.inbound),
        w.reorder_window < u64::MAX,
        forall|i: int|
            0 <= i < list.len() ==> w.now + (#[trigger] list[i]).1 + w.reorder_window <= u64::MAX,
    ensures
        ({
            let after = injected_all(w, list);
            let (seed, dues) = jittered(w.seed, w.now, w.reorder_window, list);
            &&& in_order(after.inbound)
            &&& after.inbound.to_multiset() == w.inbound.to_multiset().add(dues.to_multiset())
            &&& after == (Wire { seed, inbound: after.inbound, ..w })
            &&& dues.len() == list.len()
            &&& forall|i: int|
                0 <= i < list.len() ==> (#[trigger] dues[i]).packet == list[i].0 && w.now + list[i].1
                    <= dues[i].tick <= w.now + list[i].1 + w.reorder_window
        }),
    decreases list.len(),
{
    broadcast use vstd::seq_lib::group_to_multiset_ensures;

    let (seed, dues) = jittered(w.seed, w.now, w.reorder_window, list);
    if list.len() == 0 {
        assert(dues.to_multiset() =~= vstd::multiset::Multiset::<Due>::empty());
        assert(w.inbound.to_multiset().add(dues.to_multiset()) =~= w.inbound.to_multiset());
    } else {
        let rest = list.drop_last();
        assert forall|i: int| 0 <= i < rest.len() implies w.now + (#[trigger] rest[i]).1
            + w.reorder_window <= u64::MAX by {
            assert(rest[i] == list[i]);
        }
        jitter_only_delays(w, rest);
        let before = injected_all(w, rest);
        let after = injected_all(w, list);
        let earlier = jittered(w.seed, w.now, w.reorder_window, rest).1;
        let due = dues.last();
        assert(list[list.len() - 1] == list.last());
        if w.reorder_window > 0 {
            let rate = (w.reorder_window + 1) as u64;
            assert(draw(before.seed, rate) < rate);
        }
        a_wire_delivers_in_order(before.inbound, due);
        assert(after.inbound == scheduled(before.inbound, due));
        assert(dues =~= earlier.push(due));
        assert(dues.to_multiset() =~= earlier.to_multiset().insert(due));
        assert(after.inbound.to_multiset() =~= w.inbound.to_multiset().add(dues.to_multiset()));
        assert forall|i: int| 0 <= i < list.len() implies (#[trigger] dues[i]).packet == list[i].0
            && w.now + list[i].1 <= dues[i].tick <= w.now + list[i].1 + w.reorder_window by {
            if i < rest.len() {
                assert(dues[i] == earlier[i]);
                assert(rest[i] == list[i]);
            }
        }
    }
}

/// A wire without loss hands on every packet that is due and fits, the earliest first,
/// as it was put on it. One that is not due is waited for; one that does not fit is gone.
pub proof fn a_lossless_wire_delivers_what_is_due(w: Wire, room: int)
    requires
        w.loss_in == 0,
    ensures
        ({
            let (after, r) = received(w, room);
            &&& w.inbound.len() == 0 || w.inbound[0].tick > w.now ==> r == Err::<Seq<u8>, DeviceError>(
                DeviceError::WouldBlock,
            ) && after.inbound == w.inbound
            &&& w.inbound.len() > 0 && w.inbound[0].tick <= w.now ==> seq![w.inbound[0]] + after.inbound == w.inbound && r
                == (if w.inbound[0].packet.len() <= room {
                Ok::<Seq<u8>, DeviceError>(w.inbound[0].packet)
            } else {
                Err(DeviceError::InvalidData)
            })
            &&& after.sent == w.sent && after.now == w.now && after.seed == w.seed
        }),
{
    if w.inbound.len() > 0 {
        assert(seq![w.inbound[0]] + w.inbound.skip(1) =~= w.inbound);
    }
}

/// What is written to a wire is sent as it is, behind what was sent before, unless the wire
/// loses it; a wire without loss loses nothing.
pub proof fn a_write_is_sent_or_lost(w: Wire, packet: Seq<u8>)
    ensures
        w.loss_out == 0 ==> written(w, packet).sent == w.sent.push(packet),
        written(w, packet).sent == w.sent.push(packet) || (w.loss_out > 0 && written(w, packet).sent == w.sent),
        written(w, packet).inbound == w.inbound && written(w, packet).now == w.now,
{
}

/// A packet that is put on a wire is due after its delay, and no more than the reordering
/// window later; without a window exactly then.
pub proof fn a_packet_is_due_after_its_delay(w: Wire, packet: Seq<u8>, delay: u64)
    requires
        w.now + delay + w.reorder_window < u64::MAX,
    ensures
        exists|due: Due|
            #![trigger scheduled(w.inbound, due)]
            injected(w, packet, delay).inbound == scheduled(w.inbound, due) && due.packet == packet && w.now + delay
                <= due.tick <= w.now + delay + w.reorder_window,
        injected(w, packet, delay).sent == w.sent,
        injected(w, packet, delay).now == w.now,
{
    let jitter = if w.reorder_window > 0 {
        draw(w.seed, (w.reorder_window + 1) as u64)
    } else {
        0
    };
    let due = Due { tick: (w.now + delay + jitter) as u64, packet };
    assert(injected(w, packet, delay).inbound == scheduled(w.inbound, due));
}

} // verus!
