//! Cutting a sequential stream of point records into batches under a
//! point-count limit.
//!
//! The producer reads records one at a time. Each record is appended to the
//! current batch; whenever the running count is a multiple of the batch size
//! the batch is emitted and a new one begun. Once the count exceeds the
//! limit, the remaining (possibly empty) batch is emitted and the stream
//! stops. When the reader runs out first (or hands back a malformed record),
//! the remaining batch is emitted the same way.

use vstd::prelude::*;

verus! {

/// The first `floor(len / b)` batches of `s`, each exactly `b` long.
pub open spec fn full_batches<T>(s: Seq<T>, b: nat) -> Seq<Seq<T>> {
    Seq::new(s.len() / b, |k: int| s.subrange(k * b, (k + 1) * b))
}

/// What is left of `s` after its full batches (shorter than `b`).
pub open spec fn tail_batch<T>(s: Seq<T>, b: nat) -> Seq<T> {
    s.subrange((s.len() as int / b as int) * (b as int), s.len() as int)
}

/// The batches emitted once `s` has been read: the full ones, and the
/// remainder too once the stream has stopped.
pub open spec fn emitted<T>(s: Seq<T>, b: nat, stopped: bool) -> Seq<Seq<T>> {
    if stopped {
        full_batches(s, b).push(tail_batch(s, b))
    } else {
        full_batches(s, b)
    }
}

/// How many records the producer reads from a source of `available` records
/// under `limit`: it stops after the first record that takes the count past
/// the limit.
pub open spec fn consumed(available: nat, limit: u64) -> nat {
    if available <= limit {
        available
    } else {
        (limit + 1) as nat
    }
}

/// Every batch delivered for a load of `records` under `limit` with batch
/// size `b`, in order.
pub open spec fn batches_of<T>(records: Seq<T>, limit: u64, b: nat) -> Seq<Seq<T>> {
    emitted(records.take(consumed(records.len(), limit) as int), b, true)
}

pub open spec fn batch_views<T>(v: Seq<Vec<T>>) -> Seq<Seq<T>> {
    v.map_values(|x: Vec<T>| x@)
}

/// The point total a load works towards: the explicit limit when one is
/// given (nonzero), else the total the reader declares.
pub fn effective_total(declared_total: u64, count_limit: u64) -> (n: u64)
    ensures
        n == if count_limit == 0 { declared_total } else { count_limit },
{
    if count_limit == 0 {
        declared_total
    } else {
        count_limit
    }
}

/// The number of batches that progress reporting divides by for a load of
/// `total` points.
pub fn expected_batch_count(total: u64, batch_size: u64) -> (n: u64)
    requires
        batch_size > 0,
        batch_size > 1 || total < u64::MAX,
    ensures
        n == total / batch_size + 1,
{
    proof {
        if batch_size > 1 {
            vstd::arithmetic::div_mod::lemma_div_is_ordered_by_denominator(
                total as int,
                2,
                batch_size as int,
            );
        }
    }
    total / batch_size + 1
}

proof fn lemma_step_div(m: int, b: int)
    requires
        b > 0,
        m >= 1,
    ensures
        m % b == 0 ==> m / b == (m - 1) / b + 1 && (m / b) * b == m && ((m - 1) / b) * b == m - b,
        m % b != 0 ==> m / b == (m - 1) / b && (m / b) * b == ((m - 1) / b) * b,
        (m / b) * b <= m,
        ((m - 1) / b) * b <= m - 1,
{
    vstd::arithmetic::div_mod::lemma_fundamental_div_mod(m, b);
    vstd::arithmetic::div_mod::lemma_fundamental_div_mod(m - 1, b);
    let q = (m - 1) / b;
    let r = (m - 1) % b;
    if r + 1 == b {
        assert((q + 1) * b == b * q + b) by (nonlinear_arith);
        assert(m == (q + 1) * b + 0);
        vstd::arithmetic::div_mod::lemma_fundamental_div_mod_converse(m, b, q + 1, 0);
    } else {
        vstd::arithmetic::div_mod::lemma_fundamental_div_mod_converse(m, b, q, r + 1);
    }
    assert(b * q == q * b) by (nonlinear_arith);
    assert(b * (m / b) == (m / b) * b) by (nonlinear_arith);
}

proof fn lemma_mul_le(k: int, j: int, b: int)
    requires
        0 <= k <= j,
        b >= 0,
    ensures
        k * b <= j * b,
        (k + 1) * b == k * b + b,
{
    assert(k * b <= j * b) by (nonlinear_arith)
        requires 0 <= k <= j, b >= 0;
    assert((k + 1) * b == k * b + b) by (nonlinear_arith);
}

/// Reading one more record adds a full batch exactly when the count reaches
/// a multiple of `b`.
proof fn lemma_emitted_push<T>(s: Seq<T>, x: T, b: nat)
    requires
        b > 0,
    ensures
        (s.len() as int + 1) % (b as int) == 0 ==> full_batches(s.push(x), b)
            == full_batches(s, b).push(tail_batch(s, b).push(x)) && tail_batch(s.push(x), b)
            =~= Seq::<T>::empty(),
        (s.len() as int + 1) % (b as int) != 0 ==> full_batches(s.push(x), b) == full_batches(s, b)
            && tail_batch(s.push(x), b) =~= tail_batch(s, b).push(x),
{
    let t = s.push(x);
    let m = t.len() as int;
    let bi = b as int;
    lemma_step_div(m, bi);
    let q0 = (s.len() as int) / bi;
    assert(q0 * bi <= s.len());
    assert forall|k: int| 0 <= k < q0 implies #[trigger] t.subrange(k * bi, (k + 1) * bi)
        == s.subrange(k * bi, (k + 1) * bi) by {
        lemma_mul_le(k + 1, q0, bi);
        lemma_mul_le(k, q0, bi);
        assert(0 <= k * bi) by (nonlinear_arith)
            requires k >= 0, bi > 0;
        assert((k + 1) * bi <= s.len());
        assert(t.subrange(k * bi, (k + 1) * bi) =~= s.subrange(k * bi, (k + 1) * bi));
    }
    if m % bi == 0 {
        assert(full_batches(t, b) =~= full_batches(s, b).push(tail_batch(s, b).push(x))) by {
            assert(t.subrange(q0 * bi, (q0 + 1) * bi) =~= tail_batch(s, b).push(x)) by {
                lemma_mul_le(q0 as int, q0 as int, bi);
            }
        }
    } else {
        assert(full_batches(t, b) =~= full_batches(s, b));
    }
}

/// The full batches of `s` followed by its remainder spell out `s`.
proof fn lemma_flatten_batches<T>(s: Seq<T>, b: nat, k: int)
    requires
        b > 0,
        0 <= k <= s.len() / b,
    ensures
        Seq::new(k as nat, |j: int| s.subrange(j * b, (j + 1) * b)).flatten()
            =~= s.subrange(0, k * b),
    decreases k,
{
    let bi = b as int;
    vstd::arithmetic::div_mod::lemma_fundamental_div_mod(s.len() as int, bi);
    let n = s.len() as int;
    assert((n / bi) * bi <= n) by (nonlinear_arith)
        requires n == bi * (n / bi) + n % bi, n % bi >= 0;
    if k == 0 {
        assert(Seq::new(0, |j: int| s.subrange(j * b, (j + 1) * b)) =~= Seq::<Seq<T>>::empty());
    } else {
        lemma_flatten_batches(s, b, k - 1);
        lemma_mul_le(k, n / bi, bi);
        lemma_mul_le(k - 1, n / bi, bi);
        let prev = Seq::new((k - 1) as nat, |j: int| s.subrange(j * b, (j + 1) * b));
        let cur = Seq::new(k as nat, |j: int| s.subrange(j * b, (j + 1) * b));
        assert(cur =~= prev.push(s.subrange((k - 1) * b, k * b)));
        prev.lemma_flatten_push(s.subrange((k - 1) * b, k * b));
    }
}

/// Concatenating the batches delivered for a load gives back exactly the
/// records that were read, in read order; there are `floor(m / b) + 1` of
/// them, i.e. `ceil((m + 1) / b)`, where `m` records are read: all of them
/// when the source holds no more than `limit`, else `limit + 1`.
pub proof fn lemma_batches_cover_prefix<T>(records: Seq<T>, limit: u64, b: nat)
    requires
        b > 0,
    ensures
        batches_of(records, limit, b).flatten() == records.take(
            consumed(records.len(), limit) as int,
        ),
        batches_of(records, limit, b).len() == consumed(records.len(), limit) / b + 1,
        batches_of(records, limit, b).len() == (consumed(records.len(), limit) + b) as int / (b as int),
        batches_of(records, limit, b).flatten().len() == consumed(records.len(), limit),
        forall|k: int|
            0 <= k < batches_of(records, limit, b).len() - 1 ==> #[trigger] batches_of(
                records,
                limit,
                b,
            )[k].len() == b,
        batches_of(records, limit, b).last().len() < b,
{
    let m = consumed(records.len(), limit) as int;
    let bi = b as int;
    let s = records.take(m);
    let q = m / bi;
    lemma_flatten_batches(s, b, q);
    assert(full_batches(s, b) =~= Seq::new(q as nat, |j: int| s.subrange(j * b, (j + 1) * b)));
    full_batches(s, b).lemma_flatten_push(tail_batch(s, b));
    vstd::arithmetic::div_mod::lemma_fundamental_div_mod(m, bi);
    let r = m % bi;
    assert(q * bi <= m) by (nonlinear_arith)
        requires m == bi * q + r, r >= 0;
    assert(s.subrange(0, q * bi) + tail_batch(s, b) =~= s);
    assert((m + bi) / bi == q + 1) by {
        assert(m + bi == bi * (q + 1) + r) by (nonlinear_arith)
            requires m == bi * q + r;
        vstd::arithmetic::div_mod::lemma_fundamental_div_mod_converse(m + bi, bi, q + 1, r);
    }
    assert(batches_of(records, limit, b) == full_batches(s, b).push(tail_batch(s, b)));
    assert(tail_batch(s, b).len() == r);
    assert forall|k: int|
        0 <= k < batches_of(records, limit, b).len() - 1 implies #[trigger] batches_of(
            records,
            limit,
            b,
        )[k].len() == b by {
        lemma_mul_le(k + 1, q, bi);
        lemma_mul_le(q, q, bi);
        lemma_mul_le(k, q, bi);
        assert(0 <= k * bi) by (nonlinear_arith)
            requires k >= 0, bi > 0;
        assert(q * bi <= s.len());
        assert((k + 1) * bi <= s.len());
        assert(full_batches(s, b)[k] == s.subrange(k * bi, (k + 1) * bi));
        assert(batches_of(records, limit, b)[k] == full_batches(s, b)[k]);
    }
}

/// The producer side of a load: it takes records one at a time and says
/// which batches are ready to be delivered.
pub struct BatchProducer<T> {
    limit: u64,
    batch_size: u64,
    processed: u64,
    current: Vec<T>,
    stopped: bool,
    read: Ghost<Seq<T>>,
}

impl<T> BatchProducer<T> {
    /// The records taken so far, in order.
    pub closed spec fn records(&self) -> Seq<T> {
        self.read@
    }

    pub closed spec fn limit(&self) -> u64 {
        self.limit
    }

    pub closed spec fn batch_size(&self) -> nat {
        self.batch_size as nat
    }

    /// The stream is exhausted: nothing more will be emitted.
    pub closed spec fn stopped(&self) -> bool {
        self.stopped
    }

    pub closed spec fn wf(&self) -> bool {
        &&& self.batch_size > 0
        &&& self.processed as int == self.read@.len()
        &&& !self.stopped ==> self.current@ == tail_batch(self.read@, self.batch_size as nat)
        &&& !self.stopped ==> self.processed <= self.limit
    }

    /// A producer for a load of at most `limit` records (plus the one that
    /// crosses it) in batches of `batch_size`.
    pub fn new(limit: u64, batch_size: u64) -> (p: Self)
        requires
            batch_size > 0,
        ensures
            p.wf(),
            p.records() == Seq::<T>::empty(),
            p.limit() == limit,
            p.batch_size() == batch_size,
            !p.stopped(),
    {
        let p = BatchProducer {
            limit,
            batch_size,
            processed: 0,
            current: Vec::new(),
            stopped: false,
            read: Ghost(Seq::empty()),
        };
        assert(p.current@ =~= tail_batch(p.read@, batch_size as nat));
        p
    }

    pub fn is_stopped(&self) -> (r: bool)
        ensures
            r == self.stopped(),
    {
        self.stopped
    }

    /// How many records have been taken.
    pub fn points_read(&self) -> (n: u64)
        requires
            self.wf(),
        ensures
            n == self.records().len(),
    {
        self.processed
    }

    /// Takes the next record and returns the batches it completes: a full
    /// batch when the count reaches a multiple of the batch size, and the
    /// remainder (possibly empty) when the count passes the limit, after
    /// which the producer is stopped.
    pub fn push(&mut self, record: T) -> (out: Vec<Vec<T>>)
        requires
            old(self).wf(),
            !old(self).stopped(),
            old(self).records().len() < u64::MAX,
        ensures
            final(self).wf(),
            final(self).records() == old(self).records().push(record),
            final(self).limit() == old(self).limit(),
            final(self).batch_size() == old(self).batch_size(),
            final(self).stopped() == (final(self).records().len() > old(self).limit()),
            emitted(old(self).records(), old(self).batch_size(), false) + batch_views(out@)
                == emitted(final(self).records(), final(self).batch_size(), final(self).stopped()),
    {
        let ghost s0 = self.read@;
        let ghost b = self.batch_size as nat;
        proof {
            lemma_emitted_push(s0, record, b);
        }
        self.current.push(record);
        self.processed = self.processed + 1;
        self.read = Ghost(s0.push(record));
        let mut out: Vec<Vec<T>> = Vec::new();
        if self.processed % self.batch_size == 0 {
            let mut full: Vec<T> = Vec::new();
            core::mem::swap(&mut full, &mut self.current);
            out.push(full);
        }
        if self.processed > self.limit {
            let mut rest: Vec<T> = Vec::new();
            core::mem::swap(&mut rest, &mut self.current);
            out.push(rest);
            self.stopped = true;
        }
        proof {
            assert(batch_views(out@).len() == out@.len());
            assert(emitted(s0, b, false) + batch_views(out@) =~= emitted(
                self.read@,
                b,
                self.stopped,
            ));
        }
        out
    }

    /// The reader has no more records (or a malformed one): returns the
    /// remaining batch, possibly empty, and stops.
    pub fn finish(&mut self) -> (last: Vec<T>)
        requires
            old(self).wf(),
            !old(self).stopped(),
        ensures
            final(self).wf(),
            final(self).stopped(),
            final(self).records() == old(self).records(),
            final(self).limit() == old(self).limit(),
            final(self).batch_size() == old(self).batch_size(),
            emitted(old(self).records(), old(self).batch_size(), false).push(last@) == emitted(
                final(self).records(),
                final(self).batch_size(),
                true,
            ),
    {
        let mut rest: Vec<T> = Vec::new();
        core::mem::swap(&mut rest, &mut self.current);
        self.stopped = true;
        rest
    }
}

/// Runs a whole load over `records`, standing for everything the reader
/// would hand out, and returns the batches in delivery order.
pub fn batch_records<T: Copy>(records: &Vec<T>, limit: u64, batch_size: u64) -> (out: Vec<Vec<T>>)
    requires
        batch_size > 0,
    ensures
        batch_views(out@) == batches_of(records@, limit, batch_size as nat),
{
    let mut producer: BatchProducer<T> = BatchProducer::new(limit, batch_size);
    let mut out: Vec<Vec<T>> = Vec::new();
    let mut i: usize = 0;
    while i < records.len() && !producer.is_stopped()
        invariant
            producer.wf(),
            producer.limit() == limit,
            producer.batch_size() == batch_size,
            i <= records@.len(),
            producer.records() == records@.take(i as int),
            producer.stopped() ==> i == limit as int + 1,
            !producer.stopped() ==> i <= limit,
            batch_views(out@) == emitted(producer.records(), batch_size as nat, producer.stopped()),
        decreases records@.len() - i,
    {
        let mut ready = producer.push(records[i]);
        proof {
            assert(records@.take(i as int).push(records@[i as int]) =~= records@.take(i + 1));
        }
        let ghost before = out@;
        let ghost got = ready@;
        out.append(&mut ready);
        proof {
            assert(out@ == before + got);
            assert(batch_views(out@) =~= batch_views(before) + batch_views(got));
        }
        i = i + 1;
    }
    if !producer.is_stopped() {
        let last = producer.finish();
        let ghost before = batch_views(out@);
        out.push(last);
        proof {
            assert(batch_views(out@) =~= before.push(last@));
            assert(records@.take(i as int) =~= records@.take(consumed(records@.len(), limit) as int));
        }
    }
    out
}

/// What one non-blocking poll of the batch channel found.
#[derive(Clone, Copy, PartialEq, Eq, Structural, Debug)]
pub enum PollOutcome {
    /// A batch arrived.
    Batch,
    /// Nothing yet; the producer is still running.
    Empty,
    /// The producer has finished and will send nothing more.
    Disconnected,
}

/// The consumer's view of a load: how many batches have arrived out of how
/// many are expected, and whether the load is still running. The end of the
/// load is the producer's disconnect, never a count.
pub struct LoadProgress {
    pub batches_loaded: u64,
    pub expected_batches: u64,
    pub loading: bool,
}

impl LoadProgress {
    /// No load under way.
    pub fn idle() -> (p: LoadProgress)
        ensures
            !p.loading,
            p.batches_loaded == 0,
            p.expected_batches == 0,
    {
        LoadProgress { batches_loaded: 0, expected_batches: 0, loading: false }
    }

    /// A load of `total` points in batches of `batch_size` has begun.
    pub fn start(total: u64, batch_size: u64) -> (p: LoadProgress)
        requires
            batch_size > 0,
            batch_size > 1 || total < u64::MAX,
        ensures
            p.loading,
            p.batches_loaded == 0,
            p.expected_batches == total / batch_size + 1,
    {
        LoadProgress { batches_loaded: 0, expected_batches: expected_batch_count(total, batch_size), loading: true }
    }

    /// Takes account of one poll: a batch counts one more (the count
    /// saturates), a disconnect ends the load.
    pub fn on_poll(&mut self, outcome: PollOutcome)
        ensures
            final(self).expected_batches == old(self).expected_batches,
            final(self).batches_loaded == if outcome == PollOutcome::Batch && old(self).batches_loaded < u64::MAX {
                (old(self).batches_loaded + 1) as u64
            } else {
                old(self).batches_loaded
            },
            final(self).loading == (old(self).loading && outcome != PollOutcome::Disconnected),
    {
        match outcome {
            PollOutcome::Batch => {
                if self.batches_loaded < u64::MAX {
                    self.batches_loaded = self.batches_loaded + 1;
                }
            },
            PollOutcome::Empty => {},
            PollOutcome::Disconnected => {
                self.loading = false;
            },
        }
    }
}

/// The 8-bit colour of a rendered vertex: each 16-bit channel keeps its high
/// byte; a point without colour is opaque white.
pub fn vertex_colour(colour: Option<(u16, u16, u16)>) -> (c: (u8, u8, u8))
    ensures
        colour matches Some(rgb) ==> c == ((rgb.0 / 256) as u8, (rgb.1 / 256) as u8, (rgb.2 / 256) as u8),
        colour is None ==> c == (255u8, 255u8, 255u8),
{
    match colour {
        Some(rgb) => ((rgb.0 / 256) as u8, (rgb.1 / 256) as u8, (rgb.2 / 256) as u8),
        None => (255, 255, 255),
    }
}

} // verus!
