//! The bookkeeping of a recording: samples through a ring buffer, their peak, what
//! was dropped, and how long a channel has been dead.
//!
//! A sample is held as the bits of a 32-bit floating-point number.

use vstd::prelude::*;

use crate::text::{decimal, push_decimal, strings_view};

verus! {

/// Pre-allocated ring buffer capacity: 10 seconds of audio.
pub const RING_BUF_SECONDS: usize = 10;

/// Estimated max recording duration for pre-allocation (2 hours).
pub const PREALLOC_DURATION_SECS: usize = 7200;

/// The bits of 1e-7, the threshold for detecting a dead tap. A live tap with no audio
/// still produces noise-floor samples above it.
pub const DEAD_TAP_THRESHOLD: u32 = 0x33d6_bf95;

/// The bits of infinity: what lies above them, the sign left out, is not a number.
pub const INFINITY: u32 = 0x7f80_0000;

/// `rtrb::Producer`, the end of a ring buffer that samples are pushed into.
#[verifier::external_type_specification]
#[verifier::external_body]
#[verifier::reject_recursive_types(T)]
pub struct ExProducer<T>(rtrb::Producer<T>);

/// `rtrb::Consumer`, the end of a ring buffer that samples are taken from.
#[verifier::external_type_specification]
#[verifier::external_body]
#[verifier::reject_recursive_types(T)]
pub struct ExConsumer<T>(rtrb::Consumer<T>);

/// The samples that were offered to the buffer through this end, the first one first,
/// each with whether it went in.
pub uninterp spec fn offers(producer: rtrb::Producer<u32>) -> Seq<(u32, bool)>;

/// The number of samples that the buffer was made for.
pub uninterp spec fn room(producer: rtrb::Producer<u32>) -> nat;

/// What each attempt to take a sample through this end gave, the first one first:
/// a sample, or nothing where the buffer was empty.
pub uninterp spec fn takes(consumer: rtrb::Consumer<u32>) -> Seq<Option<u32>>;

/// Which of the ring buffers that were made this is an end of.
pub uninterp spec fn ring_behind(producer: rtrb::Producer<u32>) -> nat;

/// Which of the ring buffers that were made this is an end of.
pub uninterp spec fn ring_before(consumer: rtrb::Consumer<u32>) -> nat;

/// The samples that the attempts gave.
pub open spec fn came_out(takes: Seq<Option<u32>>) -> Seq<u32>
    decreases takes.len(),
{
    if takes.len() == 0 {
        seq![]
    } else {
        match takes.last() {
            Some(sample) => came_out(takes.drop_last()).push(sample),
            None => came_out(takes.drop_last()),
        }
    }
}

/// The samples of the offers that went in.
pub open spec fn went_in(offers: Seq<(u32, bool)>) -> Seq<u32>
    decreases offers.len(),
{
    if offers.len() == 0 {
        seq![]
    } else if offers.last().1 {
        went_in(offers.drop_last()).push(offers.last().0)
    } else {
        went_in(offers.drop_last())
    }
}

/// The number of offers that were refused.
pub open spec fn dropped(offers: Seq<(u32, bool)>) -> int
    decreases offers.len(),
{
    if offers.len() == 0 {
        0
    } else if offers.last().1 {
        dropped(offers.drop_last())
    } else {
        dropped(offers.drop_last()) + 1
    }
}

/// Calls `rtrb::RingBuffer::new`: the two ends of one empty buffer of the given
/// capacity, to which nothing was offered yet and from which nothing was taken. A buffer
/// larger than memory can address is left out.
#[verifier::external_body]
fn new_buffer(capacity: usize) -> (r: (rtrb::Producer<u32>, rtrb::Consumer<u32>))
    requires
        capacity * 4 <= isize::MAX,
    ensures
        offers(r.0) == Seq::<(u32, bool)>::empty(),
        room(r.0) == capacity,
        takes(r.1) == Seq::<Option<u32>>::empty(),
        ring_behind(r.0) == ring_before(r.1),
{
    rtrb::RingBuffer::new(capacity)
}

/// The slots of the buffer that are free: what there is room for, less what has gone in
/// and not come out.
pub open spec fn free_slots(
    producer: rtrb::Producer<u32>,
    consumer: rtrb::Consumer<u32>,
) -> int {
    room(producer) - (went_in(offers(producer)).len() - came_out(takes(consumer)).len())
}

/// Calls `Producer::push` and says whether the sample went in. It is refused only
/// where the buffer is full, so never before as many have gone in as it has room for.
/// Whether it is full later on rests with the other end. Where that end is lent for the
/// call, nothing is taken meanwhile: then the sample goes in exactly if a slot is free,
/// and no more slots are than there is room for, nor fewer than none.
#[verifier::external_body]
fn push(
    producer: &mut rtrb::Producer<u32>,
    sample: u32,
    idle: Option<&rtrb::Consumer<u32>>,
) -> (r: bool)
    ensures
        offers(*final(producer)) == offers(*old(producer)).push((sample, r)),
        room(*final(producer)) == room(*old(producer)),
        ring_behind(*final(producer)) == ring_behind(*old(producer)),
        !r ==> went_in(offers(*old(producer))).len() >= room(*old(producer)),
        idle matches Some(c) ==> (ring_behind(*old(producer)) == ring_before(*c) ==> {
            &&& 0 <= free_slots(*old(producer), *c) <= room(*old(producer))
            &&& r == (free_slots(*old(producer), *c) > 0)
        }),
{
    let _ = idle;
    producer.push(sample).is_ok()
}

/// Calls `Consumer::pop`. Which sample comes out, and when the buffer is empty, rests
/// with the other end. Where that end is lent for the call, nothing is pushed meanwhile:
/// then what has come out so far is the beginning of what went in, no more is in between
/// than there is room for, and the next sample that went in comes out, or none where all
/// have.
#[verifier::external_body]
fn pop(consumer: &mut rtrb::Consumer<u32>, idle: Option<&rtrb::Producer<u32>>) -> (r: Option<u32>)
    ensures
        takes(*final(consumer)) == takes(*old(consumer)).push(r),
        ring_before(*final(consumer)) == ring_before(*old(consumer)),
        idle matches Some(p) ==> (ring_behind(*p) == ring_before(*old(consumer)) ==> {
            let all = went_in(offers(*p));
            let had = came_out(takes(*old(consumer)));
            &&& had.len() <= all.len() <= had.len() + room(*p)
            &&& had == all.take(had.len() as int)
            &&& r == (if had.len() < all.len() {
                Some(all[had.len() as int])
            } else {
                None
            })
        }),
{
    let _ = idle;
    consumer.pop().ok()
}

/// A ring buffer for ten seconds of audio.
pub fn ring_buffer(sample_rate: u32) -> (r: (rtrb::Producer<u32>, rtrb::Consumer<u32>))
    requires
        sample_rate * RING_BUF_SECONDS * 4 <= isize::MAX,
    ensures
        offers(r.0) == Seq::<(u32, bool)>::empty(),
        room(r.0) == sample_rate * RING_BUF_SECONDS,
        takes(r.1) == Seq::<Option<u32>>::empty(),
        ring_behind(r.0) == ring_before(r.1),
        refused_when_full(r.0),
{
    proof {
        reveal(refused_when_full);
    }
    new_buffer(sample_rate as usize * RING_BUF_SECONDS)
}

/// No offer was refused before as many went in as there is room for.
#[verifier::opaque]
pub open spec fn refused_when_full(producer: rtrb::Producer<u32>) -> bool {
    forall|i: int|
        0 <= i < offers(producer).len() && !(#[trigger] offers(producer)[i]).1 ==> went_in(
            offers(producer).take(i),
        ).len() >= room(producer)
}

/// The offers that `after` has beyond those of `before`.
pub open spec fn new_offers(
    before: rtrb::Producer<u32>,
    after: rtrb::Producer<u32>,
) -> Seq<(u32, bool)> {
    offers(after).skip(offers(before).len() as int)
}

/// The samples of `data` were offered, one after the other.
pub open spec fn offered(
    before: rtrb::Producer<u32>,
    after: rtrb::Producer<u32>,
    data: Seq<u32>,
) -> bool {
    &&& offers(after) == offers(before) + new_offers(before, after)
    &&& new_offers(before, after).len() == data.len()
    &&& forall|i: int|
        0 <= i < data.len() ==> (#[trigger] new_offers(before, after)[i]).0 == data[i]
    &&& room(after) == room(before)
    &&& ring_behind(after) == ring_behind(before)
}

/// The bits of a sample without its sign.
pub open spec fn magnitude(sample: u32) -> u32 {
    sample & 0x7fff_ffff
}

/// The largest magnitude among the samples and `peak`.
pub open spec fn peak_of(peak: u32, data: Seq<u32>) -> u32
    decreases data.len(),
{
    if data.len() == 0 {
        peak
    } else {
        let before = peak_of(peak, data.drop_last());
        if magnitude(data.last()) > before {
            magnitude(data.last())
        } else {
            before
        }
    }
}

/// The sample is louder than the threshold of a dead tap. What is not a number is
/// not.
pub open spec fn live(sample: u32) -> bool {
    DEAD_TAP_THRESHOLD < magnitude(sample) <= INFINITY
}

pub open spec fn any_live(data: Seq<u32>) -> bool {
    exists|i: int| 0 <= i < data.len() && live(#[trigger] data[i])
}

/// `n` in a counter of 64 bits.
pub open spec fn wrapped(n: int) -> int {
    n % 0x1_0000_0000_0000_0000
}

/// Every sample offered goes in or is counted as dropped.
pub proof fn lemma_in_or_dropped(offers: Seq<(u32, bool)>)
    ensures
        went_in(offers).len() + dropped(offers) == offers.len(),
    decreases offers.len(),
{
    if offers.len() > 0 {
        lemma_in_or_dropped(offers.drop_last());
    }
}

/// Nothing is dropped while the buffer has room for all that was ever offered.
pub proof fn lemma_no_drops_in_room(producer: rtrb::Producer<u32>)
    requires
        refused_when_full(producer),
        offers(producer).len() <= room(producer),
    ensures
        dropped(offers(producer)) == 0,
{
    let all = offers(producer);
    lemma_none_dropped(producer, all.len() as int);
    assert(all.take(all.len() as int) =~= all);
}

proof fn lemma_none_dropped(producer: rtrb::Producer<u32>, n: int)
    requires
        refused_when_full(producer),
        offers(producer).len() <= room(producer),
        0 <= n <= offers(producer).len(),
    ensures
        dropped(offers(producer).take(n)) == 0,
    decreases n,
{
    reveal(refused_when_full);
    let some = offers(producer).take(n);
    if n > 0 {
        lemma_none_dropped(producer, n - 1);
        let less = offers(producer).take(n - 1);
        assert(some.drop_last() =~= less);
        lemma_in_or_dropped(less);
        assert(offers(producer)[n - 1].1);
    }
}

proof fn lemma_offered_one_more(
    start: rtrb::Producer<u32>,
    before: rtrb::Producer<u32>,
    after: rtrb::Producer<u32>,
    done: Seq<u32>,
    offer: (u32, bool),
)
    requires
        offered(start, before, done),
        offers(after) == offers(before).push(offer),
        room(after) == room(before),
        ring_behind(after) == ring_behind(before),
    ensures
        offered(start, after, done.push(offer.0)),
        dropped(new_offers(start, after)) == dropped(new_offers(start, before)) + (if offer.1 {
            0int
        } else {
            1
        }),
{
    let news = new_offers(start, before);
    assert(new_offers(start, after) =~= news.push(offer));
    assert(news.push(offer).drop_last() =~= news);
    assert forall|i: int| 0 <= i < done.len() + 1 implies (#[trigger] new_offers(start, after)[i]).0
        == done.push(offer.0)[i] by {
        if i < done.len() {
            assert(news[i].0 == done[i]);
        }
    }
}

proof fn lemma_push_refused_when_full(
    before: rtrb::Producer<u32>,
    after: rtrb::Producer<u32>,
    offer: (u32, bool),
)
    requires
        offers(after) == offers(before).push(offer),
        room(after) == room(before),
        !offer.1 ==> went_in(offers(before)).len() >= room(before),
    ensures
        refused_when_full(before) ==> refused_when_full(after),
{
    reveal(refused_when_full);
    let n = offers(before).len() as int;
    assert(offers(after).take(n) =~= offers(before));
    assert forall|i: int|
        refused_when_full(before) && 0 <= i < offers(after).len() && !(
        #[trigger] offers(after)[i]).1 implies went_in(offers(after).take(i)).len() >= room(
        after,
    ) by {
        if i < n {
            assert(offers(before)[i] == offers(after)[i]);
            assert(offers(after).take(i) =~= offers(before).take(i));
        }
    }
}

proof fn lemma_dead_sample(data: Seq<u32>, s: u32)
    requires
        !live(s),
    ensures
        any_live(data.push(s)) == any_live(data),
{
    let more = data.push(s);
    if any_live(more) {
        let k = choose|k: int| 0 <= k < more.len() && live(#[trigger] more[k]);
        assert(live(data[k]));
    }
    if any_live(data) {
        let k = choose|k: int| 0 <= k < data.len() && live(#[trigger] data[k]);
        assert(live(more[k]));
    }
}

/// As many of `wanted` samples as there are slots for.
pub open spec fn fitting(free: int, wanted: int) -> int {
    if free <= 0 {
        0
    } else if free < wanted {
        free
    } else {
        wanted
    }
}

/// Core sample-push logic. Tracks peak level, dropped samples (ring buffer full), and
/// optionally consecutive dead-tap duration.
///
/// The silence counter detects a dead tap by checking for exact-zero samples (at or
/// below `DEAD_TAP_THRESHOLD`). A live tap with nobody talking still produces
/// noise-floor samples that exceed this threshold.
///
/// Where the other end of the buffer is at hand and idle, the samples that there are
/// slots for go in, from the first on, and the others are dropped.
#[verifier::rlimit(30)]
pub fn push_samples_tracked(
    producer: &mut rtrb::Producer<u32>,
    peak: &mut u32,
    drops: &mut u64,
    silence: Option<&mut u64>,
    data: &[u32],
    idle: Option<&rtrb::Consumer<u32>>,
)
    ensures
        offered(*old(producer), *final(producer), data@),
        refused_when_full(*old(producer)) ==> refused_when_full(*final(producer)),
        *final(drops) == wrapped(
            *old(drops) + dropped(new_offers(*old(producer), *final(producer))),
        ),
        *final(peak) == peak_of(*old(peak), data@),
        silence matches Some(s) ==> *final(s) == (if any_live(data@) {
            0
        } else {
            wrapped(*s + data@.len())
        }),
        idle matches Some(c) ==> (ring_behind(*old(producer)) == ring_before(*c) ==> {
            let free = free_slots(*old(producer), *c);
            let n = fitting(free, data@.len() as int);
            &&& data@.len() > 0 ==> 0 <= free <= room(*old(producer))
            &&& went_in(offers(*final(producer))) == went_in(offers(*old(producer))) + data@.take(n)
            &&& dropped(new_offers(*old(producer), *final(producer))) == data@.len() - n
        }),
{
    let mut all_dead = true;
    let mut i: usize = 0;
    assert(data@.take(0) =~= seq![]);
    assert(new_offers(*producer, *producer) =~= seq![]);
    assert(went_in(offers(*producer)) =~= went_in(offers(*producer)) + data@.take(0));
    while i < data.len()
        invariant
            i <= data@.len(),
            offered(*old(producer), *producer, data@.take(i as int)),
            refused_when_full(*old(producer)) ==> refused_when_full(*producer),
            *drops == wrapped(*old(drops) + dropped(new_offers(*old(producer), *producer))),
            *peak == peak_of(*old(peak), data@.take(i as int)),
            all_dead == !any_live(data@.take(i as int)),
            idle matches Some(c) ==> (ring_behind(*old(producer)) == ring_before(*c) ==> {
                let free = free_slots(*old(producer), *c);
                let n = fitting(free, i as int);
                &&& i > 0 ==> 0 <= free <= room(*old(producer))
                &&& went_in(offers(*producer)) == went_in(offers(*old(producer))) + data@.take(n)
                &&& dropped(new_offers(*old(producer), *producer)) == i - n
            }),
        decreases data@.len() - i,
    {
        let s = data[i];
        let ghost done = data@.take(i as int);
        let ghost more = data@.take(i + 1);
        assert(more.drop_last() =~= done);
        assert(more.last() == s);
        let level = s & 0x7fff_ffff;
        if level > *peak {
            *peak = level;
        }
        let ghost before = *producer;
        let ok = push(producer, s, idle);
        if !ok {
            *drops = drops.wrapping_add(1);
        }
        proof {
            lemma_offered_one_more(*old(producer), before, *producer, done, (s, ok));
            assert(done.push(s) =~= more);
            lemma_push_refused_when_full(before, *producer, (s, ok));
            assert(offers(*producer).drop_last() =~= offers(before));
            if let Some(c) = idle {
                let n = fitting(free_slots(*old(producer), *c), i as int);
                assert(0 <= n <= i);
                assert(ok && n == i ==> data@.take(n).push(s) =~= data@.take(n + 1));
                assert(ok ==> went_in(offers(*producer)) == went_in(offers(before)).push(s));
                assert((went_in(offers(*old(producer))) + data@.take(n)).push(s) =~= went_in(
                    offers(*old(producer)),
                ) + data@.take(n).push(s));
            }
        }
        if level > DEAD_TAP_THRESHOLD && level <= INFINITY {
            all_dead = false;
            assert(live(more[i as int]));
        } else {
            proof {
                lemma_dead_sample(done, s);
            }
        }
        i += 1;
    }
    assert(data@.take(i as int) =~= data@);
    if let Some(silence) = silence {
        if all_dead {
            *silence = silence.wrapping_add(data.len() as u64);
        } else {
            *silence = 0;
        }
    }
}

/// An empty buffer with room for two hours of samples, so that it need not grow while
/// they are collected. The room is what the allocator sets aside, no part of what the
/// buffer holds, and is not stated.
pub fn sample_buffer(sample_rate: u32) -> (r: Vec<u32>)
    requires
        sample_rate * PREALLOC_DURATION_SECS * 4 <= isize::MAX,
    ensures
        r@ == Seq::<u32>::empty(),
{
    Vec::with_capacity(sample_rate as usize * PREALLOC_DURATION_SECS)
}

/// Samples that were taken, and then the buffer empty.
pub open spec fn until_empty(got: Seq<u32>) -> Seq<Option<u32>> {
    Seq::new(got.len(), |i: int| Some(got[i])).push(None)
}

/// Takes samples until the ring buffer is empty, and appends them to `buf`. Where the
/// other end is at hand and idle, all that went in has come out then, in order.
#[verifier::rlimit(30)]
pub fn drain_ring_buffer(
    consumer: &mut rtrb::Consumer<u32>,
    buf: &mut Vec<u32>,
    idle: Option<&rtrb::Producer<u32>>,
)
    ensures
        ({
            let got = final(buf)@.skip(old(buf)@.len() as int);
            &&& final(buf)@ == old(buf)@ + got
            &&& takes(*final(consumer)) == takes(*old(consumer)) + until_empty(got)
            &&& came_out(takes(*final(consumer))) == came_out(takes(*old(consumer))) + got
        }),
        ring_before(*final(consumer)) == ring_before(*old(consumer)),
        idle matches Some(p) ==> (ring_behind(*p) == ring_before(*old(consumer)) ==> {
            &&& came_out(takes(*final(consumer))) == went_in(offers(*p))
            &&& went_in(offers(*p)).len() <= came_out(takes(*old(consumer))).len() + room(*p)
        }),
{
    let ghost start = came_out(takes(*consumer));
    let ghost mut got: Seq<u32> = seq![];
    assert(takes(*consumer) =~= takes(*old(consumer)) + Seq::new(
        got.len(),
        |i: int| Some(got[i]),
    ));
    assert(buf@ =~= old(buf)@ + got);
    assert(start =~= start + got);
    loop
        invariant
            takes(*consumer) == takes(*old(consumer)) + Seq::new(
                got.len(),
                |i: int| Some(got[i]),
            ),
            start == came_out(takes(*old(consumer))),
            came_out(takes(*consumer)) == start + got,
            ring_before(*consumer) == ring_before(*old(consumer)),
            buf@ == old(buf)@ + got,
            got.len() > 0 ==> (idle matches Some(p) ==> (ring_behind(*p) == ring_before(
                *old(consumer),
            ) ==> went_in(offers(*p)).len() <= start.len() + room(*p))),
        decreases usize::MAX - buf.len(),
    {
        let ghost before = takes(*consumer);
        match pop(consumer, idle) {
            Some(sample) => {
                let ghost more = got.push(sample);
                buf.push(sample);
                assert(takes(*consumer) =~= takes(*old(consumer)) + Seq::new(
                    more.len(),
                    |i: int| Some(more[i]),
                ));
                assert(takes(*consumer).drop_last() =~= before);
                assert(came_out(takes(*consumer)) =~= start + more);
                assert(buf@ =~= old(buf)@ + more);
                assert(buf.len() == buf@.len());
                proof {
                    got = more;
                }
            },
            None => {
                assert(buf@.skip(old(buf)@.len() as int) =~= got);
                assert(takes(*consumer) =~= takes(*old(consumer)) + until_empty(got));
                assert(takes(*consumer).drop_last() =~= before);
                proof {
                    if let Some(p) = idle {
                        let all = went_in(offers(*p));
                        assert(all.take(all.len() as int) =~= all);
                    }
                }
                return ;
            },
        }
    }
}

// --- What comes out ---

/// The samples that were offered, whether they went in or not.
pub open spec fn samples(offers: Seq<(u32, bool)>) -> Seq<u32> {
    Seq::new(offers.len(), |i: int| offers[i].0)
}

proof fn lemma_went_in_grows(offers: Seq<(u32, bool)>, i: int)
    requires
        0 <= i <= offers.len(),
    ensures
        went_in(offers.take(i)).len() <= went_in(offers).len(),
    decreases offers.len(),
{
    if i < offers.len() {
        lemma_went_in_grows(offers.drop_last(), i);
        assert(offers.drop_last().take(i) =~= offers.take(i));
    } else {
        assert(offers.take(i) =~= offers);
    }
}

/// Where no offer was refused, all went in.
proof fn lemma_all_went_in(offers: Seq<(u32, bool)>)
    requires
        dropped(offers) == 0,
    ensures
        went_in(offers) == samples(offers),
    decreases offers.len(),
{
    if offers.len() > 0 {
        let less = offers.drop_last();
        lemma_dropped_is_count(less);
        lemma_all_went_in(less);
        assert(samples(offers) =~= samples(less).push(offers.last().0));
    } else {
        assert(samples(offers) =~= seq![]);
    }
}

proof fn lemma_dropped_is_count(offers: Seq<(u32, bool)>)
    ensures
        0 <= dropped(offers) <= offers.len(),
    decreases offers.len(),
{
    if offers.len() > 0 {
        lemma_dropped_is_count(offers.drop_last());
    }
}

proof fn lemma_no_refusal(offers: Seq<(u32, bool)>)
    requires
        forall|i: int| 0 <= i < offers.len() ==> (#[trigger] offers[i]).1,
    ensures
        dropped(offers) == 0,
    decreases offers.len(),
{
    if offers.len() > 0 {
        let less = offers.drop_last();
        assert forall|i: int| 0 <= i < less.len() implies (#[trigger] less[i]).1 by {
            assert(offers[i].1);
        }
        lemma_no_refusal(less);
        assert(offers[offers.len() - 1].1);
    }
}

/// While nothing leaves a buffer, what goes in is what is offered first: once it is
/// full, it stays so.
proof fn lemma_first_ones_go_in(offers: Seq<(u32, bool)>, room: nat)
    requires
        forall|i: int|
            0 <= i < offers.len() && !(#[trigger] offers[i]).1 ==> went_in(offers.take(i)).len()
                >= room,
        went_in(offers).len() <= room,
    ensures
        went_in(offers) == samples(offers).take(offers.len() - dropped(offers)),
    decreases offers.len(),
{
    lemma_dropped_is_count(offers);
    if offers.len() == 0 {
        assert(went_in(offers) =~= samples(offers).take(0));
    } else {
        let less = offers.drop_last();
        let n = offers.len() as int;
        lemma_dropped_is_count(less);
        if offers.last().1 {
            assert forall|i: int| 0 <= i < less.len() implies (#[trigger] less[i]).1 by {
                assert(less[i] == offers[i]);
                if !offers[i].1 {
                    assert(offers.take(i) =~= less.take(i));
                    lemma_went_in_grows(less, i);
                }
            }
            lemma_no_refusal(less);
            lemma_all_went_in(offers);
            assert(samples(offers).take(n) =~= samples(offers));
        } else {
            assert forall|i: int| 0 <= i < less.len() && !(#[trigger] less[i]).1 implies went_in(
                less.take(i),
            ).len() >= room by {
                assert(less[i] == offers[i]);
                assert(offers.take(i) =~= less.take(i));
            }
            lemma_first_ones_go_in(less, room);
            assert(samples(less).take(less.len() - dropped(less)) =~= samples(offers).take(
                n - dropped(offers),
            ));
        }
    }
}

proof fn lemma_dropped_concat(a: Seq<(u32, bool)>, b: Seq<(u32, bool)>)
    ensures
        dropped(a + b) == dropped(a) + dropped(b),
    decreases b.len(),
{
    if b.len() == 0 {
        assert(a + b =~= a);
    } else {
        assert((a + b).drop_last() =~= a + b.drop_last());
        lemma_dropped_concat(a, b.drop_last());
    }
}

/// What is drained from a ring buffer is what was pushed into it, in order, less what
/// was dropped. Say that the samples offered up to `before` all went in, that `data` was
/// offered after them up to `after`, and that then, nothing having been taken yet, the
/// buffer was drained with its other end idle: what came out is all that went in, and no
/// more than there is room for. It is the samples from before, and the first ones of
/// `data`, without as many as were dropped.
pub proof fn lemma_drained_is_what_was_pushed(
    before: rtrb::Producer<u32>,
    after: rtrb::Producer<u32>,
    data: Seq<u32>,
    drained: Seq<u32>,
)
    requires
        dropped(offers(before)) == 0,
        offered(before, after, data),
        refused_when_full(after),
        drained == went_in(offers(after)),
        drained.len() <= room(after),
    ensures
        ({
            let d = dropped(new_offers(before, after));
            &&& 0 <= d <= data.len()
            &&& drained == samples(offers(before)) + data.take(data.len() - d)
            &&& drained.len() + d == offers(before).len() + data.len()
        }),
{
    let new = new_offers(before, after);
    let d = dropped(new);
    lemma_dropped_is_count(new);
    lemma_dropped_concat(offers(before), new);
    assert(went_in(offers(after)) == samples(offers(after)).take(
        offers(after).len() - dropped(offers(after)),
    )) by {
        reveal(refused_when_full);
        lemma_first_ones_go_in(offers(after), room(after));
    }
    assert(samples(offers(after)) =~= samples(offers(before)) + data) by {
        assert forall|i: int| 0 <= i < data.len() implies samples(offers(after))[offers(
            before,
        ).len() + i] == #[trigger] data[i] by {
            assert(new[i].0 == data[i]);
        }
    }
    assert(drained =~= samples(offers(before)) + data.take(data.len() - d));
}

/// The peak is at least as high as the one before and as every sample without its sign,
/// and it is one of these.
pub proof fn lemma_peak_is_highest(peak: u32, data: Seq<u32>)
    ensures
        peak_of(peak, data) >= peak,
        forall|i: int| 0 <= i < data.len() ==> peak_of(peak, data) >= (#[trigger] data[i]
            & 0x7fff_ffff),
        peak_of(peak, data) == peak || exists|i: int|
            0 <= i < data.len() && peak_of(peak, data) == (#[trigger] data[i] & 0x7fff_ffff),
    decreases data.len(),
{
    if data.len() > 0 {
        let less = data.drop_last();
        let n = data.len() - 1;
        lemma_peak_is_highest(peak, less);
        assert forall|i: int| 0 <= i < data.len() implies peak_of(peak, data) >= (
        #[trigger] data[i] & 0x7fff_ffff) by {
            if i < n {
                assert(less[i] == data[i]);
            }
        }
        if magnitude(data[n]) <= peak_of(peak, less) && peak_of(peak, less) != peak {
            let k = choose|k: int|
                0 <= k < less.len() && peak_of(peak, less) == (#[trigger] less[k] & 0x7fff_ffff);
            assert(less[k] == data[k]);
        }
    }
}

/// A tap is dead exactly if every sample it gave is at most a ten-millionth, the sign left
/// out, or is not a number.
pub proof fn lemma_dead_tap(data: Seq<u32>)
    ensures
        any_live(data) <==> !(forall|i: int|
            0 <= i < data.len() ==> (#[trigger] data[i] & 0x7fff_ffff) <= 0x33d6_bf95 || (data[i]
                & 0x7fff_ffff) > 0x7f80_0000),
{
    if any_live(data) {
        let k = choose|k: int| 0 <= k < data.len() && live(#[trigger] data[k]);
        assert((data[k] & 0x7fff_ffff) > 0x33d6_bf95);
    } else {
        assert forall|i: int| 0 <= i < data.len() implies (#[trigger] data[i] & 0x7fff_ffff)
            <= 0x33d6_bf95 || (data[i] & 0x7fff_ffff) > 0x7f80_0000 by {
            assert(!live(data[i]));
        }
    }
}

/// One live sample, wherever it stands, makes what is given live.
pub proof fn lemma_live_sample(before: Seq<u32>, sample: u32, after: Seq<u32>)
    requires
        0x33d6_bf95 < (sample & 0x7fff_ffff) <= 0x7f80_0000,
    ensures
        any_live(before + seq![sample] + after),
{
    let data = before + seq![sample] + after;
    assert(data[before.len() as int] == sample);
    assert(live(data[before.len() as int]));
}

/// A counter shows its number while that fits in 64 bits, and starts again at nothing
/// after the highest.
pub proof fn lemma_counter_wraps(n: int)
    requires
        n >= 0,
    ensures
        n <= u64::MAX ==> wrapped(n) == n,
        wrapped(n + u64::MAX + 1) == wrapped(n),
        0 <= wrapped(n) <= u64::MAX,
{
}

/// Of the samples that are wanted, all go in if there are slots for them, else as many as
/// there are slots.
pub proof fn lemma_fitting(free: int, wanted: int)
    requires
        free >= 0,
        wanted >= 0,
    ensures
        wanted <= free ==> fitting(free, wanted) == wanted,
        free <= wanted ==> fitting(free, wanted) == free,
{
}

/// What went in, what came out and how many were dropped, each counted attempt by
/// attempt: a sample that went in is behind those before it, a refused one is counted and
/// changes nothing else.
pub proof fn lemma_attempts_counted(
    offers: Seq<(u32, bool)>,
    takes: Seq<Option<u32>>,
    sample: u32,
)
    ensures
        went_in(seq![]) == Seq::<u32>::empty(),
        went_in(offers.push((sample, true))) == went_in(offers).push(sample),
        went_in(offers.push((sample, false))) == went_in(offers),
        dropped(seq![]) == 0,
        dropped(offers.push((sample, true))) == dropped(offers),
        dropped(offers.push((sample, false))) == dropped(offers) + 1,
        came_out(seq![]) == Seq::<u32>::empty(),
        came_out(takes.push(Some(sample))) == came_out(takes).push(sample),
        came_out(takes.push(None)) == came_out(takes),
{
    assert(offers.push((sample, true)).drop_last() =~= offers);
    assert(offers.push((sample, false)).drop_last() =~= offers);
    assert(takes.push(Some(sample)).drop_last() =~= takes);
    assert(takes.push(None).drop_last() =~= takes);
}

/// Pushing offers every sample once, in order, after what was offered before, to the same
/// buffer.
pub proof fn lemma_samples_offered(
    before: rtrb::Producer<u32>,
    after: rtrb::Producer<u32>,
    data: Seq<u32>,
)
    requires
        offered(before, after, data),
    ensures
        offers(after).len() == offers(before).len() + data.len(),
        offers(after).take(offers(before).len() as int) == offers(before),
        samples(offers(after)) == samples(offers(before)) + data,
        room(after) == room(before),
        ring_behind(after) == ring_behind(before),
{
    let n = offers(before).len() as int;
    assert(offers(after).take(n) =~= offers(before));
    assert forall|i: int| 0 <= i < data.len() implies samples(offers(after))[n + i]
        == #[trigger] data[i] by {
        assert(new_offers(before, after)[i].0 == data[i]);
    }
    assert forall|i: int| n <= i < offers(after).len() implies samples(offers(after))[i] == (
    samples(offers(before)) + data)[i] by {
        assert(samples(offers(after))[n + (i - n)] == data[i - n]);
    }
    assert(samples(offers(after)) =~= samples(offers(before)) + data);
}

/// The whole seconds of silence that a count of silent samples stands for.
pub fn silence_secs(samples: u64, sample_rate: u32) -> (r: u64)
    requires
        sample_rate > 0,
    ensures
        r == samples / (sample_rate as u64),
        r * sample_rate <= samples < (r + 1) * sample_rate,
{
    proof {
        vstd::arithmetic::div_mod::lemma_fundamental_div_mod(samples as int, sample_rate as int);
        vstd::arithmetic::mul::lemma_mul_is_distributive_add_other_way(
            sample_rate as int,
            (samples / (sample_rate as u64)) as int,
            1,
        );
        vstd::arithmetic::mul::lemma_mul_is_commutative(
            sample_rate as int,
            (samples / (sample_rate as u64)) as int,
        );
    }
    samples / sample_rate as u64
}

// --- Stereo ---

/// The number of frames that two channels make: that of the longer one.
pub open spec fn frames(mic: Seq<u32>, spk: Seq<u32>) -> int {
    if mic.len() >= spk.len() {
        mic.len() as int
    } else {
        spk.len() as int
    }
}

/// Sample `i` of a channel; silence past its end.
pub open spec fn sample_at(channel: Seq<u32>, i: int) -> u32 {
    if i < channel.len() {
        channel[i]
    } else {
        0
    }
}

pub fn frame_count(mic: &[u32], spk: &[u32]) -> (r: usize)
    ensures
        r == frames(mic@, spk@),
        r >= mic@.len(),
        r >= spk@.len(),
        r == mic@.len() || r == spk@.len(),
{
    if mic.len() >= spk.len() {
        mic.len()
    } else {
        spk.len()
    }
}

/// Frame `i` of the interleaved recording: the microphone, then the speaker.
pub fn frame(mic: &[u32], spk: &[u32], i: usize) -> (r: (u32, u32))
    ensures
        r == (sample_at(mic@, i as int), sample_at(spk@, i as int)),
        r.0 == (if i < mic@.len() {
            mic@[i as int]
        } else {
            0
        }),
        r.1 == (if i < spk@.len() {
            spk@[i as int]
        } else {
            0
        }),
{
    let m = if i < mic.len() {
        mic[i]
    } else {
        0
    };
    let s = if i < spk.len() {
        spk[i]
    } else {
        0
    };
    (m, s)
}

/// Frame by frame the recording holds both channels from their first sample to their last:
/// the first parts of the frames are the microphone's samples in order and then silence,
/// the second parts the speaker's, and there are no more frames than the longer channel
/// has samples.
pub proof fn lemma_frames_hold_channels(mic: Seq<u32>, spk: Seq<u32>)
    ensures
        forall|i: int| 0 <= i < mic.len() ==> #[trigger] sample_at(mic, i) == mic[i],
        forall|i: int| 0 <= i < spk.len() ==> #[trigger] sample_at(spk, i) == spk[i],
        forall|i: int| i >= mic.len() ==> #[trigger] sample_at(mic, i) == 0,
        forall|i: int| i >= spk.len() ==> #[trigger] sample_at(spk, i) == 0,
        Seq::new(mic.len(), |i: int| sample_at(mic, i)) == mic,
        Seq::new(spk.len(), |i: int| sample_at(spk, i)) == spk,
        mic.len() <= frames(mic, spk),
        spk.len() <= frames(mic, spk),
        frames(mic, spk) == mic.len() || frames(mic, spk) == spk.len(),
{
    assert(Seq::new(mic.len(), |i: int| sample_at(mic, i)) =~= mic);
    assert(Seq::new(spk.len(), |i: int| sample_at(spk, i)) =~= spk);
}

// --- Reports ---

/// What is said when a recording starts.
pub open spec fn start_lines(mic_rate: int, spk_rate: int) -> Seq<Seq<char>> {
    let first = "Recording (mic "@ + decimal(mic_rate) + "Hz, speaker "@ + decimal(spk_rate)
        + "Hz)..."@;
    if mic_rate == spk_rate {
        seq![first]
    } else {
        seq![
            first,
            "Warning: sample rates differ ("@ + decimal(mic_rate) + " vs "@ + decimal(spk_rate)
                + "). Using "@ + decimal(mic_rate) + "Hz for output."@,
        ]
    }
}

pub fn start_report(mic_rate: u32, spk_rate: u32) -> (r: Vec<String>)
    ensures
        strings_view(r@) == start_lines(mic_rate as int, spk_rate as int),
{
    let mut lines: Vec<String> = Vec::new();
    let mut first = "Recording (mic ".to_owned();
    push_decimal(&mut first, mic_rate as u64);
    first.append("Hz, speaker ");
    push_decimal(&mut first, spk_rate as u64);
    first.append("Hz)...");
    lines.push(first);
    if mic_rate != spk_rate {
        let mut warning = "Warning: sample rates differ (".to_owned();
        push_decimal(&mut warning, mic_rate as u64);
        warning.append(" vs ");
        push_decimal(&mut warning, spk_rate as u64);
        warning.append("). Using ");
        push_decimal(&mut warning, mic_rate as u64);
        warning.append("Hz for output.");
        lines.push(warning);
    }
    assert(strings_view(lines@) =~= start_lines(mic_rate as int, spk_rate as int));
    lines
}

/// What is said when a recording ends and samples were dropped.
pub fn drop_report(mic_dropped: u64, spk_dropped: u64) -> (r: Option<String>)
    ensures
        match r {
            Some(s) => (mic_dropped > 0 || spk_dropped > 0) && s@
                == "Warning: dropped samples \u{2014} mic: "@ + decimal(mic_dropped as int)
                + ", speaker: "@ + decimal(spk_dropped as int),
            None => mic_dropped == 0 && spk_dropped == 0,
        },
{
    if mic_dropped > 0 || spk_dropped > 0 {
        let mut out = "Warning: dropped samples \u{2014} mic: ".to_owned();
        push_decimal(&mut out, mic_dropped);
        out.append(", speaker: ");
        push_decimal(&mut out, spk_dropped);
        Some(out)
    } else {
        None
    }
}

/// The report names both rates, the microphone's first; a second line comes only where they
/// differ, and says that the microphone's is used.
pub proof fn lemma_start_report(mic_rate: int, spk_rate: int)
    ensures
        ({
            let lines = start_lines(mic_rate, spk_rate);
            let (m, s) = (decimal(mic_rate), decimal(spk_rate));
            let n = m.len() as int + 15;
            &&& lines.len() == 1 <==> mic_rate == spk_rate
            &&& lines.len() == 2 <==> mic_rate != spk_rate
            &&& lines[0].subrange(15, n) == m
            &&& lines[0].subrange(n + 12, n + 12 + s.len()) == s
            &&& mic_rate != spk_rate ==> {
                let k = lines[1].len() - 14;
                lines[1].subrange(k - m.len(), k) == m
            }
        }),
{
    reveal_strlit("Recording (mic ");
    reveal_strlit("Hz, speaker ");
    reveal_strlit("Hz for output.");
    let lines = start_lines(mic_rate, spk_rate);
    let (m, s) = (decimal(mic_rate), decimal(spk_rate));
    let n = m.len() as int + 15;
    assert(lines[0].subrange(15, n) =~= m);
    assert(lines[0].subrange(n + 12, n + 12 + s.len()) =~= s);
    if mic_rate != spk_rate {
        let k = lines[1].len() - 14;
        assert(lines[1].subrange(k - m.len(), k) =~= m);
    }
}

/// Draining takes samples as long as there are any, and ends with the first attempt that
/// gives none.
pub proof fn lemma_until_empty(got: Seq<u32>, i: int)
    ensures
        until_empty(got).len() == got.len() + 1,
        0 <= i < got.len() ==> until_empty(got)[i] == Some(got[i]),
        until_empty(got)[got.len() as int] is None,
{
}

} // verus!
