//! The collector: assembles the per-chunk row lists of a cycle into one
//! batch, keeps the most recent complete batches in a bounded ring, and
//! answers tail requests from that ring.
use vstd::prelude::*;

use crate::partition::{chunk_count, chunks_of, flatten, vec_views};

verus! {

/// The last `k` elements of `s`, or all of `s` where it holds fewer.
pub open spec fn last_n<T>(s: Seq<T>, k: nat) -> Seq<T> {
    if k >= s.len() {
        s
    } else {
        s.subrange(s.len() - k, s.len() as int)
    }
}

/// The smaller of two naturals.
pub open spec fn min_nat(a: nat, b: nat) -> nat {
    if a <= b {
        a
    } else {
        b
    }
}

/// What a collector holds, as mathematical values.
pub struct CollectorModel<R> {
    /// Number of complete batches the ring keeps.
    pub capacity: nat,
    /// Number of chunk arrivals that complete one cycle.
    pub expected: nat,
    /// Row lists of the chunks that arrived in the cycle in progress.
    pub pending: Seq<Seq<R>>,
    /// Row lists of the chunks of every completed cycle, oldest cycle first.
    pub cycles: Seq<Seq<Seq<R>>>,
}

impl<R> CollectorModel<R> {
    /// Every batch completed so far, oldest first.
    pub open spec fn history(self) -> Seq<Seq<R>> {
        self.cycles.map_values(|c: Seq<Seq<R>>| flatten(c))
    }

    /// The batches the ring holds: the most recent `capacity` ones.
    pub open spec fn ring(self) -> Seq<Seq<R>> {
        last_n(self.history(), self.capacity)
    }

    /// The answer to a tail request for `n` batches: `n` is clamped to the
    /// capacity, and the `n` most recent batches come oldest first.
    pub open spec fn tail(self, n: nat) -> Seq<Seq<R>> {
        last_n(self.ring(), min_nat(n, self.capacity))
    }

    /// Every completed cycle took exactly the expected number of chunks, and
    /// the cycle in progress has not reached it.
    pub open spec fn inv(self) -> bool {
        &&& (self.expected == 0 ==> self.pending.len() == 0 && self.cycles.len() == 0)
        &&& (self.expected > 0 ==> self.pending.len() < self.expected)
        &&& forall|i: int| 0 <= i < self.cycles.len() ==> #[trigger] self.cycles[i].len() == self.expected
    }

    /// The state after one chunk's rows arrive. With no expected chunk count
    /// no cycle can complete and the rows are dropped.
    pub open spec fn arrive(self, rows: Seq<R>) -> Self {
        if self.expected == 0 {
            self
        } else if self.pending.len() + 1 == self.expected {
            CollectorModel { pending: seq![], cycles: self.cycles.push(self.pending.push(rows)), ..self }
        } else {
            CollectorModel { pending: self.pending.push(rows), ..self }
        }
    }

    /// The state after the chunks `cs` arrive in order.
    pub open spec fn arrive_all(self, cs: Seq<Seq<R>>) -> Self
        decreases cs.len(),
    {
        if cs.len() == 0 {
            self
        } else {
            self.arrive(cs[0]).arrive_all(cs.skip(1))
        }
    }
}

/// The collector's state. It is driven by one owner, which feeds it chunk
/// arrivals and tail requests one at a time, in mailbox order.
///
/// A cycle has no deadline: it completes when its expected number of chunks
/// has arrived, and until then its rows stay invisible.
pub struct Collector<R> {
    ring: Vec<Vec<R>>,
    current: Vec<R>,
    received: usize,
    expected: usize,
    capacity: usize,
    pending: Ghost<Seq<Seq<R>>>,
    cycles: Ghost<Seq<Seq<Seq<R>>>>,
}

impl<R> View for Collector<R> {
    type V = CollectorModel<R>;

    closed spec fn view(&self) -> CollectorModel<R> {
        CollectorModel {
            capacity: self.capacity as nat,
            expected: self.expected as nat,
            pending: self.pending@,
            cycles: self.cycles@,
        }
    }
}

proof fn lemma_last_n_push<T>(s: Seq<T>, x: T, k: nat)
    requires
        k > 0,
    ensures
        last_n(s.push(x), k) == if last_n(s, k).len() == k {
            last_n(s, k).skip(1).push(x)
        } else {
            last_n(s, k).push(x)
        },
{
    if k >= s.len() + 1 {
        assert(last_n(s.push(x), k) =~= s.push(x));
    } else if k == s.len() {
        assert(last_n(s.push(x), k) =~= s.skip(1).push(x));
    } else {
        assert(last_n(s.push(x), k) =~= last_n(s, k).skip(1).push(x));
    }
}

/// Flattened length depends only on the lengths of the parts.
proof fn lemma_flatten_len<A, B>(a: Seq<Seq<A>>, b: Seq<Seq<B>>)
    requires
        a.len() == b.len(),
        forall|i: int| 0 <= i < a.len() ==> #[trigger] a[i].len() == b[i].len(),
    ensures
        flatten(a).len() == flatten(b).len(),
    decreases a.len(),
{
    if a.len() > 0 {
        assert forall|i: int| 0 <= i < a.skip(1).len() implies #[trigger] a.skip(1)[i].len()
            == b.skip(1)[i].len() by {
            assert(a.skip(1)[i] == a[i + 1]);
            assert(b.skip(1)[i] == b[i + 1]);
        }
        lemma_flatten_len(a.skip(1), b.skip(1));
    }
}

/// Arrivals that do not go past the expected count either complete the
/// cycle in progress with all of them, or leave them all pending.
proof fn lemma_arrive_all_within_cycle<R>(m: CollectorModel<R>, cs: Seq<Seq<R>>)
    requires
        m.inv(),
        m.expected > 0,
        m.pending.len() + cs.len() <= m.expected,
    ensures
        m.arrive_all(cs) == if m.pending.len() + cs.len() == m.expected {
            CollectorModel { pending: seq![], cycles: m.cycles.push(m.pending + cs), ..m }
        } else {
            CollectorModel { pending: m.pending + cs, ..m }
        },
    decreases cs.len(),
{
    if cs.len() == 0 {
        assert(m.pending + cs =~= m.pending);
    } else {
        let next = m.arrive(cs[0]);
        if m.pending.len() + 1 == m.expected {
            assert(cs.skip(1).len() == 0);
            assert(next.arrive_all(cs.skip(1)) == next);
            assert(m.pending.push(cs[0]) =~= m.pending + cs);
        } else {
            assert forall|i: int| 0 <= i < next.cycles.len() implies #[trigger] next.cycles[i].len()
                == next.expected by {
                assert(next.cycles[i] == m.cycles[i]);
            }
            lemma_arrive_all_within_cycle(next, cs.skip(1));
            assert(next.pending + cs.skip(1) =~= m.pending + cs);
        }
    }
}

/// One arrival keeps the model's invariant.
pub proof fn lemma_arrive_inv<R>(m: CollectorModel<R>, rows: Seq<R>)
    requires
        m.inv(),
    ensures
        m.arrive(rows).inv(),
{
    let next = m.arrive(rows);
    assert forall|i: int| 0 <= i < next.cycles.len() implies #[trigger] next.cycles[i].len()
        == next.expected by {
        if i < m.cycles.len() {
            assert(next.cycles[i] == m.cycles[i]);
        }
    }
}

/// Cycle completeness. Over one cycle, starting with nothing pending, where
/// the symbols are split into chunks of `size` and each arriving chunk
/// carries one row for each symbol of its chunk: a batch is completed exactly
/// when the rows that arrived number as many as the symbols, and that batch
/// is all of those rows in arrival order. Until then nothing new is
/// visible: the ring is as it was.
pub proof fn lemma_cycle_completeness<R, T>(
    m: CollectorModel<R>,
    cs: Seq<Seq<R>>,
    symbols: Seq<T>,
    size: nat,
)
    requires
        m.inv(),
        m.pending.len() == 0,
        size > 0,
        m.expected == chunk_count(symbols.len(), size),
        cs.len() <= m.expected,
        symbols.len() > 0,
        forall|i: int|
            0 <= i < cs.len() && i < chunks_of(symbols, size).len() ==> #[trigger] cs[i].len()
                == chunks_of(symbols, size)[i].len(),
    ensures
        m.arrive_all(cs).inv(),
        (m.arrive_all(cs).cycles.len() == m.cycles.len() + 1) == (flatten(cs).len() == symbols.len()),
        m.arrive_all(cs).cycles.len() == m.cycles.len() + 1 ==> m.arrive_all(cs).history()
            == m.history().push(flatten(cs)),
        m.arrive_all(cs).cycles.len() == m.cycles.len() ==> m.arrive_all(cs).ring() == m.ring(),
{
    let chunks = chunks_of(symbols, size);
    crate::partition::lemma_chunks_cover(symbols, size);
    let k = cs.len();
    lemma_flatten_len(cs, chunks.take(k as int));
    crate::partition::lemma_flatten_append(chunks.take(k as int), chunks.skip(k as int));
    assert(chunks.take(k as int) + chunks.skip(k as int) =~= chunks);
    if k < chunks.len() {
        assert(chunks.skip(k as int)[0] == chunks[k as int]);
        assert(flatten(chunks.skip(k as int)).len() >= chunks[k as int].len());
    }
    assert(chunk_count(symbols.len(), size) > 0) by (nonlinear_arith)
        requires
            size > 0,
            symbols.len() > 0,
    ;
    if k == chunks.len() {
        assert(chunks.take(k as int) =~= chunks);
    } else {
        assert(flatten(cs).len() < symbols.len());
    }
    {
        lemma_arrive_all_within_cycle(m, cs);
        assert(m.pending + cs =~= cs);
        let after = m.arrive_all(cs);
        assert forall|i: int| 0 <= i < after.cycles.len() implies #[trigger] after.cycles[i].len()
            == after.expected by {
            if i < m.cycles.len() {
                assert(after.cycles[i] == m.cycles[i]);
            }
        }
        if k == m.expected {
            assert(after.history() =~= m.history().push(flatten(cs)));
        }
    }
}

/// `batch` is the rows of exactly `expected` chunk arrivals, in order.
pub open spec fn assembled_from<R>(batch: Seq<R>, expected: nat) -> bool {
    exists|c: Seq<Seq<R>>| c.len() == expected && batch == #[trigger] flatten(c)
}

/// Every batch the ring holds was assembled from exactly the expected
/// number of chunk arrivals: no partial batch is ever visible.
pub proof fn lemma_ring_batches_complete<R>(m: CollectorModel<R>)
    requires
        m.inv(),
    ensures
        forall|i: int|
            0 <= i < m.ring().len() ==> assembled_from(#[trigger] m.ring()[i], m.expected),
{
    assert forall|i: int| 0 <= i < m.ring().len() implies assembled_from(
        #[trigger] m.ring()[i],
        m.expected,
    ) by {
        let j = if m.capacity >= m.history().len() {
            i
        } else {
            m.history().len() - m.capacity + i
        };
        assert(0 <= j < m.cycles.len());
        assert(m.cycles[j].len() == m.expected);
        assert(m.ring()[i] == flatten(m.cycles[j]));
    }
}

/// Ring bound. The ring never holds more than its capacity, and once at
/// least `capacity` batches have completed, a tail request for `capacity`
/// batches returns exactly the `capacity` most recent ones; after
/// `capacity + 1` completions that leaves out the oldest.
pub proof fn lemma_ring_bound<R>(m: CollectorModel<R>)
    ensures
        m.ring().len() <= m.capacity,
        m.history().len() >= m.capacity ==> m.tail(m.capacity) == m.history().skip(
            m.history().len() - m.capacity,
        ),
        m.history().len() == m.capacity + 1 ==> m.tail(m.capacity) == m.history().skip(1),
{
    let h = m.history();
    if h.len() >= m.capacity {
        assert(m.ring() =~= h.skip(h.len() - m.capacity));
        assert(m.tail(m.capacity) =~= m.ring());
    }
}

/// Clamping. A tail request never returns more batches than the capacity,
/// nor more than it asked for, whatever `n` is.
pub proof fn lemma_tail_clamped<R>(m: CollectorModel<R>, n: nat)
    ensures
        m.tail(n).len() <= m.capacity,
        m.tail(n).len() <= n,
        n >= m.capacity ==> m.tail(n) == m.ring(),
{
}

impl<R> Collector<R> {
    /// The internal invariant: the ring, the batch in progress and the chunk
    /// counter agree with the model.
    pub closed spec fn wf(&self) -> bool {
        &&& self@.inv()
        &&& self.current@ == flatten(self.pending@)
        &&& self.received as nat == self.pending@.len()
        &&& vec_views(self.ring@) == self@.ring()
    }

    /// A collector with an empty ring of `capacity` batches, for cycles of
    /// `expected` chunks.
    pub fn new(capacity: usize, expected: usize) -> (r: Self)
        ensures
            r.wf(),
            r@.capacity == capacity,
            r@.expected == expected,
            r@.pending.len() == 0,
            r@.cycles.len() == 0,
    {
        let r = Collector {
            ring: Vec::with_capacity(capacity),
            current: Vec::new(),
            received: 0,
            expected,
            capacity,
            pending: Ghost(Seq::empty()),
            cycles: Ghost(Seq::empty()),
        };
        proof {
            assert(r@.history() =~= seq![]);
            assert(vec_views(r.ring@) =~= r@.ring());
            assert(flatten(Seq::<Seq<R>>::empty()) == Seq::<R>::empty());
            assert(r.current@ =~= flatten(r.pending@));
        }
        r
    }

    /// Capacity of the ring, in batches.
    pub fn capacity(&self) -> (r: usize)
        ensures
            r == self@.capacity,
    {
        self.capacity
    }

    /// Number of chunk arrivals that complete a cycle.
    pub fn expected_chunks(&self) -> (r: usize)
        ensures
            r == self@.expected,
    {
        self.expected
    }

    /// Number of complete batches the ring holds.
    pub fn len(&self) -> (r: usize)
        requires
            self.wf(),
        ensures
            r == self@.ring().len(),
    {
        proof {
            assert(vec_views(self.ring@).len() == self.ring@.len());
        }
        self.ring.len()
    }

    /// A chunk's rows arrive: they join the batch in progress, and when they
    /// are the cycle's last expected chunk the whole batch enters the ring,
    /// evicting the oldest batch where the ring is full. Returns whether a
    /// batch was completed.
    pub fn handle_chunk(&mut self, rows: Vec<R>) -> (completed: bool)
        requires
            old(self).wf(),
        ensures
            final(self).wf(),
            final(self)@ == old(self)@.arrive(rows@),
            completed == (old(self)@.expected > 0 && old(self)@.pending.len() + 1
                == old(self)@.expected),
    {
        if self.expected == 0 {
            return false;
        }
        let ghost old_hist = self@.history();
        let ghost chunk = rows@;
        let mut rows = rows;
        self.current.append(&mut rows);
        self.received = self.received + 1;
        proof {
            crate::partition::lemma_flatten_push(self.pending@, chunk);
            self.pending@ = self.pending@.push(chunk);
        }
        if self.received == self.expected {
            let mut batch: Vec<R> = Vec::new();
            std::mem::swap(&mut batch, &mut self.current);
            self.received = 0;
            proof {
                let done = self.pending@;
                let old_cycles = self.cycles@;
                self.cycles@ = old_cycles.push(done);
                self.pending@ = seq![];
                assert(flatten(Seq::<Seq<R>>::empty()) == Seq::<R>::empty());
                assert(self.current@ =~= flatten(self.pending@));
                assert(self@.history() =~= old_cycles.map_values(|c: Seq<Seq<R>>| flatten(c)).push(
                    flatten(done),
                ));
                assert forall|i: int| 0 <= i < self.cycles@.len() implies #[trigger] self.cycles@[i].len()
                    == self.expected by {
                    if i < old_cycles.len() {
                        assert(self.cycles@[i] == old_cycles[i]);
                    }
                }
            }
            if self.capacity > 0 {
                proof {
                    lemma_last_n_push(old_hist, batch@, self.capacity as nat);
                    assert(self@.history() == old_hist.push(batch@));
                }
                if self.ring.len() == self.capacity {
                    self.ring.remove(0);
                }
                let ghost before = vec_views(self.ring@);
                let ghost batch_view = batch@;
                self.ring.push(batch);
                proof {
                    assert(vec_views(self.ring@) =~= before.push(batch_view));
                    assert(vec_views(self.ring@) =~= self@.ring());
                }
            } else {
                proof {
                    assert(self@.ring() =~= seq![]);
                    assert(vec_views(self.ring@) =~= seq![]);
                }
            }
            true
        } else {
            false
        }
    }

    /// The answer to a tail request: the `n` most recent complete batches,
    /// oldest first, with `n` clamped to the capacity.
    pub fn tail(&self, n: usize) -> (r: &[Vec<R>])
        requires
            self.wf(),
        ensures
            vec_views(r@) == self@.tail(n as nat),
            r@.len() <= self@.capacity,
            r@.len() <= n,
    {
        let len = self.ring.len();
        let mut k: usize = if n < self.capacity {
            n
        } else {
            self.capacity
        };
        if k > len {
            k = len;
        }
        let r = vstd::slice::slice_subrange(self.ring.as_slice(), len - k, len);
        proof {
            assert(vec_views(self.ring@).len() == len);
            assert(vec_views(r@) =~= self@.tail(n as nat));
        }
        r
    }
}

} // verus!
