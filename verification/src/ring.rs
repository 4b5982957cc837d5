//! The lock-free ring between two audio threads, from the crate `rtrb`.
//!
//! The two ends of a ring live on different threads, and either may act at any
//! time. What can be said of one end is what passed through it, and what the
//! other end will see of that: every item, in order. How full the ring is at
//! some moment depends on the other thread.
use crate::single::Bits;
use vstd::prelude::*;

verus! {

/// The writing end of a ring.
#[verifier::external_type_specification]
#[verifier::external_body]
#[verifier::reject_recursive_types(T)]
pub struct ExProducer<T>(rtrb::Producer<T>);

/// The reading end of a ring.
#[verifier::external_type_specification]
#[verifier::external_body]
#[verifier::reject_recursive_types(T)]
pub struct ExConsumer<T>(rtrb::Consumer<T>);

/// What has been written through this end so far.
pub uninterp spec fn written(p: rtrb::Producer<Bits>) -> Seq<Bits>;

/// What has been read through this end so far.
pub uninterp spec fn taken(c: rtrb::Consumer<Bits>) -> Seq<Bits>;

/// Everything that is ever written to the ring of this writing end, by its
/// place in the order of writing.
pub uninterp spec fn stream_in(p: rtrb::Producer<Bits>) -> Map<int, Bits>;

/// Everything that is ever written to the ring of this reading end, by its
/// place in the order of writing.
pub uninterp spec fn stream_out(c: rtrb::Consumer<Bits>) -> Map<int, Bits>;

/// How many items the ring of this writing end can hold.
pub uninterp spec fn room(p: rtrb::Producer<Bits>) -> nat;

/// How many items the ring of this reading end can hold.
pub uninterp spec fn depth(c: rtrb::Consumer<Bits>) -> nat;

/// How many items are known to wait for this reading end. There may be more, and
/// there are never fewer: nobody else takes any.
pub uninterp spec fn ready(c: rtrb::Consumer<Bits>) -> nat;

/// How often this reading end has found its ring empty.
pub uninterp spec fn misses(c: rtrb::Consumer<Bits>) -> nat;

/// How often this writing end has found its ring full.
pub uninterp spec fn refusals(p: rtrb::Producer<Bits>) -> nat;

/// The items read through this end are the first of its ring's stream.
pub open spec fn in_order(c: rtrb::Consumer<Bits>) -> bool {
    forall|i: int| 0 <= i < taken(c).len() ==> #[trigger] taken(c)[i] == stream_out(c)[i]
}

/// The items written through this end are the first of its ring's stream.
pub open spec fn on_record(p: rtrb::Producer<Bits>) -> bool {
    forall|i: int| 0 <= i < written(p).len() ==> #[trigger] written(p)[i] == stream_in(p)[i]
}

/// Makes a ring: `rtrb::RingBuffer::new`. Both ends belong to one stream,
/// nothing has passed, and the ring holds `capacity` items. The allocation
/// behind it must not exceed what a vector may have.
#[verifier::external_body]
pub(crate) fn ring(capacity: usize) -> (ends: (rtrb::Producer<Bits>, rtrb::Consumer<Bits>))
    requires
        4 * capacity <= isize::MAX,
    ensures
        written(ends.0) == Seq::<Bits>::empty(),
        taken(ends.1) == Seq::<Bits>::empty(),
        stream_in(ends.0) == stream_out(ends.1),
        room(ends.0) == capacity,
        depth(ends.1) == capacity,
        refusals(ends.0) == 0,
        ready(ends.1) == 0,
        misses(ends.1) == 0,
{
    rtrb::RingBuffer::<Bits>::new(capacity)
}

/// Writes one item: `rtrb::Producer::push`. Either it goes in as the next of
/// the stream, or the ring is full and nothing changes. The ring cannot be full
/// before as many items as it holds have been written.
#[verifier::external_body]
pub(crate) fn push(p: &mut rtrb::Producer<Bits>, item: Bits) -> (accepted: bool)
    ensures
        accepted ==> written(*final(p)) == written(*old(p)).push(item) && stream_in(
            *final(p),
        )[written(*old(p)).len() as int] == item,
        !accepted ==> written(*final(p)) == written(*old(p)),
        refusals(*final(p)) == refusals(*old(p)) + (if accepted {
            0nat
        } else {
            1nat
        }),
        written(*old(p)).len() < room(*old(p)) ==> accepted,
        stream_in(*final(p)) == stream_in(*old(p)),
        room(*final(p)) == room(*old(p)),
{
    p.push(item).is_ok()
}

/// Reads one item: `rtrb::Consumer::pop`. Either it is the next of the stream,
/// or the ring is empty and nothing changes. The ring is not empty while items
/// are known to wait.
#[verifier::external_body]
pub(crate) fn pop(c: &mut rtrb::Consumer<Bits>) -> (item: Option<Bits>)
    ensures
        item matches Some(v) ==> taken(*final(c)) == taken(*old(c)).push(v) && v == stream_out(
            *old(c),
        )[taken(*old(c)).len() as int],
        item is None ==> taken(*final(c)) == taken(*old(c)),
        item is Some ==> ready(*final(c)) + 1 >= ready(*old(c)) && misses(*final(c)) == misses(
            *old(c),
        ),
        item is None ==> ready(*old(c)) == 0 && ready(*final(c)) == 0 && misses(*final(c))
            == misses(*old(c)) + 1,
        stream_out(*final(c)) == stream_out(*old(c)),
        depth(*final(c)) == depth(*old(c)),
{
    c.pop().ok()
}

/// How many items can be read at this moment: `rtrb::Consumer::slots`. That many
/// are then known to wait: no fewer than before, and never more than the ring
/// holds. More may arrive before the next call. Nothing is read.
#[verifier::external_body]
pub(crate) fn slots(c: &mut rtrb::Consumer<Bits>) -> (n: usize)
    ensures
        n == ready(*final(c)),
        ready(*old(c)) <= n <= depth(*old(c)),
        taken(*final(c)) == taken(*old(c)),
        misses(*final(c)) == misses(*old(c)),
        stream_out(*final(c)) == stream_out(*old(c)),
        depth(*final(c)) == depth(*old(c)),
{
    c.slots()
}

/// The samples whose flag is set, in order.
pub open spec fn kept(mono: Seq<Bits>, flags: Seq<bool>) -> Seq<Bits>
    decreases mono.len(),
{
    if mono.len() == 0 {
        Seq::empty()
    } else if flags[mono.len() - 1] {
        kept(mono.drop_last(), flags).push(mono.last())
    } else {
        kept(mono.drop_last(), flags)
    }
}

/// `after` is `before` and then the flagged samples, each the next of the
/// stream; the unflagged ones, `dropped` in number, each found the ring full.
pub open spec fn pushed(
    before: rtrb::Producer<Bits>,
    after: rtrb::Producer<Bits>,
    mono: Seq<Bits>,
    flags: Seq<bool>,
    dropped: int,
) -> bool {
    &&& flags.len() == mono.len()
    &&& written(after) == written(before) + kept(mono, flags)
    &&& kept(mono, flags).len() + dropped == mono.len()
    &&& refusals(after) == refusals(before) + dropped
}

/// Writes a block into the ring and counts what did not go in.
pub(crate) fn push_block(p: &mut rtrb::Producer<Bits>, mono: &[Bits]) -> (dropped: u64)
    requires
        on_record(*old(p)),
    ensures
        on_record(*final(p)),
        stream_in(*final(p)) == stream_in(*old(p)),
        room(*final(p)) == room(*old(p)),
        exists|flags: Seq<bool>|
            #[trigger] pushed(*old(p), *final(p), mono@, flags, dropped as int),
        written(*old(p)).len() + mono@.len() <= room(*old(p)) ==> dropped == 0
            && written(*final(p)) == written(*old(p)) + mono@,
{
    let mut dropped: u64 = 0;
    let mut i: usize = 0;
    let ghost mut flags: Seq<bool> = Seq::empty();
    let ghost fits = written(*old(p)).len() + mono@.len() <= room(*old(p));
    assert(mono@.take(0) =~= Seq::<Bits>::empty());
    assert(written(*p) =~= written(*old(p)) + Seq::<Bits>::empty());
    while i < mono.len()
        invariant
            i <= mono@.len(),
            dropped <= i,
            on_record(*p),
            stream_in(*p) == stream_in(*old(p)),
            room(*p) == room(*old(p)),
            pushed(*old(p), *p, mono@.take(i as int), flags, dropped as int),
            fits == (written(*old(p)).len() + mono@.len() <= room(*old(p))),
            fits ==> dropped == 0 && written(*p) == written(*old(p)) + mono@.take(
                i as int,
            ),
        decreases mono@.len() - i,
    {
        let ghost before = *p;
        let ghost had = flags;
        let accepted: bool = push(p, mono[i]);
        if !accepted {
            dropped = dropped + 1;
        }
        i = i + 1;
        proof {
            flags = flags.push(accepted);
            let now = mono@.take(i as int);
            assert(now.drop_last() =~= mono@.take(i - 1));
            assert(now.last() == mono@[i - 1]);
            lemma_kept_ignores_later_flags(now.drop_last(), had, flags);
            assert(kept(now, flags) == if accepted {
                kept(now.drop_last(), flags).push(now.last())
            } else {
                kept(now.drop_last(), flags)
            });
            assert(written(*p) =~= written(*old(p)) + kept(now, flags));
            assert(mono@.take(i as int) =~= mono@.take(i - 1).push(mono@[i - 1]));
        }
    }
    assert(mono@.take(i as int) =~= mono@);
    assert(pushed(*old(p), *p, mono@, flags, dropped as int));
    dropped
}

proof fn lemma_kept_ignores_later_flags(mono: Seq<Bits>, a: Seq<bool>, b: Seq<bool>)
    requires
        mono.len() <= a.len(),
        mono.len() <= b.len(),
        forall|i: int| 0 <= i < mono.len() ==> a[i] == b[i],
    ensures
        kept(mono, a) == kept(mono, b),
    decreases mono.len(),
{
    if mono.len() > 0 {
        lemma_kept_ignores_later_flags(mono.drop_last(), a, b);
    }
}

/// Reads up to `want` items into the front of a buffer. Returns how many came.
pub(crate) fn pop_into(c: &mut rtrb::Consumer<Bits>, buf: &mut Vec<Bits>, want: usize) -> (got: usize)
    requires
        in_order(*old(c)),
        want <= old(buf)@.len(),
    ensures
        in_order(*final(c)),
        stream_out(*final(c)) == stream_out(*old(c)),
        depth(*final(c)) == depth(*old(c)),
        got <= want,
        final(buf)@.len() == old(buf)@.len(),
        taken(*final(c)) == taken(*old(c)) + final(buf)@.take(got as int),
        final(buf)@.skip(got as int) == old(buf)@.skip(got as int),
        misses(*final(c)) == misses(*old(c)) + (if got < want {
            1nat
        } else {
            0nat
        }),
        ready(*final(c)) + got >= ready(*old(c)),
        got < want ==> got >= ready(*old(c)),
{
    let mut got: usize = 0;
    let mut dry: bool = false;
    assert(taken(*c) + buf@.take(0) =~= taken(*c));
    while got < want && !dry
        invariant
            got <= want <= buf@.len(),
            buf@.len() == old(buf)@.len(),
            in_order(*c),
            stream_out(*c) == stream_out(*old(c)),
            depth(*c) == depth(*old(c)),
            taken(*c) == taken(*old(c)) + buf@.take(got as int),
            buf@.skip(got as int) == old(buf)@.skip(got as int),
            dry ==> got < want && got >= ready(*old(c)),
            misses(*c) == misses(*old(c)) + (if dry {
                1nat
            } else {
                0nat
            }),
            ready(*c) + got >= ready(*old(c)),
        decreases want - got, (if dry { 0int } else { 1int }),
    {
        let ghost before = buf@;
        match pop(c) {
            Some(s) => {
                buf[got] = s;
                got = got + 1;
                assert(buf@.take(got as int) =~= before.take(got - 1).push(s));
                assert(taken(*c) =~= taken(*old(c)) + buf@.take(got as int));
                assert(buf@.skip(got as int) =~= before.skip(got - 1).drop_first());
                assert(old(buf)@.skip(got as int) =~= old(buf)@.skip(got - 1).drop_first());
            },
            None => {
                dry = true;
            },
        }
    }
    got
}

/// Throws away what the ring holds, until it is found empty (or, which takes
/// centuries, more has been thrown away than can be counted).
pub(crate) fn drain(c: &mut rtrb::Consumer<Bits>)
    requires
        in_order(*old(c)),
    ensures
        in_order(*final(c)),
        stream_out(*final(c)) == stream_out(*old(c)),
        depth(*final(c)) == depth(*old(c)),
        taken(*old(c)).is_prefix_of(taken(*final(c))),
        misses(*final(c)) == misses(*old(c)) + 1 || taken(*final(c)).len() >= taken(*old(c)).len()
            + u64::MAX,
{
    let mut drained: u64 = 0;
    let mut dry: bool = false;
    while !dry && drained < u64::MAX
        invariant
            in_order(*c),
            stream_out(*c) == stream_out(*old(c)),
            depth(*c) == depth(*old(c)),
            taken(*old(c)).is_prefix_of(taken(*c)),
            taken(*c).len() == taken(*old(c)).len() + drained,
            misses(*c) == misses(*old(c)) + (if dry {
                1nat
            } else {
                0nat
            }),
        decreases u64::MAX - drained, (if dry { 0int } else { 1int }),
    {
        match pop(c) {
            Some(_) => {
                drained = drained + 1;
            },
            None => {
                dry = true;
            },
        }
    }
}

proof fn lemma_kept_is_no_longer(mono: Seq<Bits>, flags: Seq<bool>)
    ensures
        kept(mono, flags).len() <= mono.len(),
        kept(mono, flags).len() == mono.len() ==> kept(mono, flags) == mono,
    decreases mono.len(),
{
    if mono.len() > 0 {
        lemma_kept_is_no_longer(mono.drop_last(), flags);
        assert(mono =~= mono.drop_last().push(mono.last()));
    } else {
        assert(kept(mono, flags) =~= mono);
    }
}

/// A block of which nothing was dropped went in whole, in its order.
pub proof fn a_block_without_drops_goes_in_whole(
    before: rtrb::Producer<Bits>,
    after: rtrb::Producer<Bits>,
    mono: Seq<Bits>,
    flags: Seq<bool>,
)
    requires
        pushed(before, after, mono, flags, 0),
    ensures
        written(after) == written(before) + mono,
        refusals(after) == refusals(before),
{
    lemma_kept_is_no_longer(mono, flags);
}

/// What comes out of a ring is what went in, in order: the two ends of a ring
/// agree on every place that both have passed.
pub proof fn what_goes_in_comes_out(p: rtrb::Producer<Bits>, c: rtrb::Consumer<Bits>, i: int)
    requires
        stream_in(p) == stream_out(c),
        on_record(p),
        in_order(c),
        0 <= i < written(p).len(),
        0 <= i < taken(c).len(),
    ensures
        taken(c)[i] == written(p)[i],
{
}

/// What is kept of a block keeps its order: of two pieces, what is kept of the first and then
/// what is kept of the second. Of a flagged sample all is kept, of an unflagged one nothing.
pub proof fn kept_samples_keep_their_order(a: Seq<Bits>, fa: Seq<bool>, b: Seq<Bits>, fb: Seq<bool>)
    requires
        a.len() == fa.len(),
        b.len() == fb.len(),
    ensures
        kept(a + b, fa + fb) == kept(a, fa) + kept(b, fb),
        a.len() == 1 && fa[0] ==> kept(a, fa) == a,
        a.len() == 1 && !fa[0] ==> kept(a, fa) == Seq::<Bits>::empty(),
    decreases b.len(),
{
    if b.len() == 0 {
        assert(a + b =~= a);
        assert(fa + fb =~= fa);
        assert(kept(b, fb) =~= Seq::<Bits>::empty());
        assert(kept(a, fa) + kept(b, fb) =~= kept(a, fa));
    } else {
        let n = b.len() - 1;
        let fc = fb.take(n as int);
        kept_samples_keep_their_order(a, fa, b.drop_last(), fc);
        lemma_kept_reads_its_flags(a + b.drop_last(), fa + fc, fa + fb);
        lemma_kept_reads_its_flags(b.drop_last(), fc, fb);
        assert((a + b).drop_last() =~= a + b.drop_last());
        assert((a + b).last() == b.last());
        assert((fa + fb)[(a + b).len() - 1] == fb[b.len() - 1]);
        assert(kept(a + b, fa + fb) =~= kept(a, fa) + kept(b, fb));
    }
    if a.len() == 1 {
        assert(a.drop_last() =~= Seq::<Bits>::empty());
        assert(kept(a.drop_last(), fa) =~= Seq::<Bits>::empty());
        assert(a =~= Seq::<Bits>::empty().push(a.last()));
    }
}

proof fn lemma_kept_reads_its_flags(mono: Seq<Bits>, f: Seq<bool>, g: Seq<bool>)
    requires
        mono.len() <= f.len(),
        mono.len() <= g.len(),
        forall|i: int| 0 <= i < mono.len() ==> #[trigger] f[i] == g[i],
    ensures
        kept(mono, f) == kept(mono, g),
    decreases mono.len(),
{
    if mono.len() > 0 {
        lemma_kept_reads_its_flags(mono.drop_last(), f, g);
        assert(f[mono.len() - 1] == g[mono.len() - 1]);
    }
}

/// Every sample of a block either goes in or is refused.
pub proof fn every_sample_goes_in_or_is_refused(
    before: rtrb::Producer<Bits>,
    after: rtrb::Producer<Bits>,
    mono: Seq<Bits>,
    flags: Seq<bool>,
    dropped: int,
)
    requires
        pushed(before, after, mono, flags, dropped),
    ensures
        (written(after).len() - written(before).len()) + (refusals(after) - refusals(before))
            == mono.len(),
        refusals(after) - refusals(before) == dropped,
{
}

} // verus!
