use vstd::prelude::*;
use vstd::seq_lib::*;
use vstd::multiset::Multiset;
use crate::result::ExecResult;

verus! {

/// The in-order delivery point of a run. Workers finish in arbitrary order;
/// the buffer holds completed results whose turn has not come and releases
/// them strictly in ascending seed order, gap-free, starting at `start`.
/// One shared critical section owns the buffer together with the result
/// sink, so a released batch is published atomically.
pub struct OrderBuffer {
    start: u64,
    next: u64,
    pending: Vec<ExecResult>,
}

impl OrderBuffer {
    pub closed spec fn spec_start(&self) -> u64 {
        self.start
    }

    /// The next seed owed to the consumer: everything below it is delivered.
    pub closed spec fn spec_next(&self) -> u64 {
        self.next
    }

    /// The buffered results, ascending by seed, all still undelivered.
    pub closed spec fn spec_pending(&self) -> Seq<ExecResult> {
        self.pending@
    }

    pub open spec fn wf(&self) -> bool {
        &&& self.spec_start() <= self.spec_next()
        &&& forall|i: int, j: int|
            0 <= i < j < self.spec_pending().len() ==> self.spec_pending()[i].seed
                < self.spec_pending()[j].seed
        &&& forall|i: int|
            0 <= i < self.spec_pending().len() ==> self.spec_next()
                <= #[trigger] self.spec_pending()[i].seed < u64::MAX
    }

    /// The seeds already delivered: exactly the contiguous block from
    /// `start` up to, and excluding, the next expected seed.
    pub open spec fn delivered_seeds(&self) -> Seq<u64> {
        Seq::new(
            (self.spec_next() - self.spec_start()) as nat,
            |i: int| (self.spec_start() + i) as u64,
        )
    }

    pub fn new(start: u64) -> (r: OrderBuffer)
        ensures
            r.wf(),
            r.spec_start() == start,
            r.spec_next() == start,
            r.spec_pending() =~= Seq::<ExecResult>::empty(),
    {
        OrderBuffer { start, next: start, pending: Vec::new() }
    }

    /// Accepts one completed result and returns the batch that is now
    /// deliverable: the contiguous run of seeds starting at the old `next`,
    /// in ascending order. A result is released exactly once, and only when
    /// every lower seed has been released before or with it; what stays
    /// behind is still pending, nothing is lost or duplicated.
    pub fn insert(&mut self, r: ExecResult) -> (out: Vec<ExecResult>)
        requires
            old(self).wf(),
            r.seed >= old(self).spec_next(),
            r.seed < u64::MAX,
            forall|i: int|
                0 <= i < old(self).spec_pending().len()
                    ==> #[trigger] old(self).spec_pending()[i].seed != r.seed,
        ensures
            final(self).wf(),
            final(self).spec_start() == old(self).spec_start(),
            final(self).spec_next() >= old(self).spec_next(),
            out@.len() == final(self).spec_next() - old(self).spec_next(),
            forall|i: int|
                0 <= i < out@.len() ==> #[trigger] out@[i].seed == old(self).spec_next() + i,
            out@.to_multiset().add(final(self).spec_pending().to_multiset())
                =~= old(self).spec_pending().push(r).to_multiset(),
            final(self).spec_pending().len() > 0
                ==> final(self).spec_pending()[0].seed > final(self).spec_next(),
    {
        broadcast use vstd::seq_lib::group_to_multiset_ensures;
        broadcast use vstd::multiset::group_multiset_axioms;

        let ghost p0 = self.pending@;
        let mut pos: usize = 0;
        while pos < self.pending.len() && self.pending[pos].seed < r.seed
            invariant
                pos <= self.pending@.len(),
                self.pending@ == p0,
                self.next == old(self).spec_next(),
                self.start == old(self).spec_start(),
                forall|k: int| 0 <= k < pos ==> p0[k].seed < r.seed,
            decreases self.pending@.len() - pos,
        {
            pos = pos + 1;
        }
        self.pending.insert(pos, r);
        proof {
            assert(self.pending@ =~= p0.take(pos as int) + seq![r] + p0.skip(pos as int));
            lemma_multiset_commutative(p0.take(pos as int) + seq![r], p0.skip(pos as int));
            lemma_multiset_commutative(p0.take(pos as int), seq![r]);
            lemma_multiset_commutative(p0.take(pos as int), p0.skip(pos as int));
            assert(p0.take(pos as int) + p0.skip(pos as int) =~= p0);
            assert(seq![r] =~= Seq::<ExecResult>::empty().push(r));
            assert(self.pending@.to_multiset() =~= p0.push(r).to_multiset());
            // the inserted vector is still strictly sorted and above `next`
            assert forall|i: int, j: int| 0 <= i < j < self.pending@.len() implies self.pending@[i].seed
                < self.pending@[j].seed by {
                if j < pos {
                } else if i < pos && j == pos {
                } else if i == pos {
                    assert(self.pending@[j] == p0[j - 1]);
                    assert(p0[j - 1].seed != r.seed);
                    assert(p0[j - 1].seed >= r.seed);
                } else if i < pos {
                    assert(self.pending@[j] == p0[j - 1]);
                } else {
                    assert(self.pending@[i] == p0[i - 1]);
                    assert(self.pending@[j] == p0[j - 1]);
                }
            }
        }
        let ghost q0 = self.pending@;
        let ghost n0 = self.next;
        let mut out: Vec<ExecResult> = Vec::new();
        while self.pending.len() > 0 && self.pending[0].seed == self.next
            invariant
                self.start == old(self).spec_start(),
                n0 == old(self).spec_next(),
                self.next >= n0,
                forall|i: int, j: int|
                    0 <= i < j < self.pending@.len() ==> self.pending@[i].seed
                        < self.pending@[j].seed,
                forall|i: int|
                    0 <= i < self.pending@.len() ==> self.next
                        <= #[trigger] self.pending@[i].seed < u64::MAX,
                out@.len() == self.next - n0,
                forall|i: int| 0 <= i < out@.len() ==> #[trigger] out@[i].seed == n0 + i,
                out@.to_multiset().add(self.pending@.to_multiset()) =~= q0.to_multiset(),
            decreases self.pending@.len(),
        {
            let ghost pen = self.pending@;
            let ghost outg = out@;
            let x = self.pending.remove(0);
            out.push(x);
            proof {
                pen.to_multiset_ensures();
                outg.to_multiset_ensures();
                assert(pen.contains(x));
                assert(pen.to_multiset().count(x) > 0);
                assert(out@.to_multiset() =~= outg.to_multiset().insert(x));
                assert(self.pending@.to_multiset() =~= pen.to_multiset().remove(x));
                assert forall|y: ExecResult|
                    out@.to_multiset().add(self.pending@.to_multiset()).count(y)
                        == outg.to_multiset().add(pen.to_multiset()).count(y) by {
                    if y == x {
                        assert(Multiset::<ExecResult>::singleton(x).count(y) == 1);
                    } else {
                        assert(Multiset::<ExecResult>::singleton(x).count(y) == 0);
                    }
                }
                assert(out@.to_multiset().add(self.pending@.to_multiset())
                    =~= outg.to_multiset().add(pen.to_multiset()));
            }
            self.next = self.next + 1;
        }
        out
    }
}

/// Law: within one delivery batch the seeds come out strictly ascending:
/// the consumer never sees a seed before a smaller one of the same batch.
pub proof fn lemma_batch_ascending(out: Seq<ExecResult>, base: u64)
    requires
        forall|i: int| 0 <= i < out.len() ==> #[trigger] out[i].seed == base + i,
    ensures
        forall|i: int, j: int| 0 <= i < j < out.len() ==> out[i].seed < out[j].seed,
{
}

/// Law: the delivered seeds always form the gap-free block `[start, next)`
/// in strictly ascending order, so for any two seeds `s1 < s2` the buffer
/// delivers `s1` strictly before `s2`, whatever the completion interleaving.
pub proof fn lemma_delivered_strictly_ascending(b: &OrderBuffer)
    requires
        b.wf(),
    ensures
        forall|i: int, j: int|
            0 <= i < j < b.delivered_seeds().len() ==> b.delivered_seeds()[i]
                < b.delivered_seeds()[j],
{
}

/// Law: delivery only extends: whatever was delivered before an insertion
/// is a prefix of what is delivered after it, so a released result is never
/// taken back and later batches carry only larger seeds.
pub proof fn lemma_delivery_prefix(before: &OrderBuffer, after: &OrderBuffer)
    requires
        before.wf(),
        after.wf(),
        before.spec_start() == after.spec_start(),
        before.spec_next() <= after.spec_next(),
    ensures
        before.delivered_seeds() =~= after.delivered_seeds().take(
            before.delivered_seeds().len() as int,
        ),
{
}

} // verus!
