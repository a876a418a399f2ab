//! k-way merging with a loser tree over buffered runs that share a pool of
//! fixed-capacity buffers; a spare buffer goes to the run refilled most often.

use vstd::prelude::*;
use vstd::multiset::Multiset;
use crate::loser_tree::{LoserTree, INF};
use crate::run_gen::sorted;
use crate::merge::copy_run;

verus! {

broadcast use vstd::seq_lib::group_to_multiset_ensures, vstd::multiset::group_multiset_axioms;

/// The records of one run, handed out in order.
pub struct RunSource {
    records: Vec<i32>,
    pos: usize,
}

impl RunSource {
    pub closed spec fn rest(&self) -> Seq<i32> {
        self.records@.skip(self.pos as int)
    }

    pub closed spec fn inv(&self) -> bool {
        self.pos <= self.records@.len()
    }

    pub fn new(records: Vec<i32>) -> (r: Self)
        ensures
            r.inv(),
            r.rest() == records@,
    {
        let r = RunSource { records, pos: 0 };
        assert(r.records@.skip(0) =~= r.records@);
        r
    }

    pub fn next_record(&mut self) -> (r: Option<i32>)
        requires
            old(self).inv(),
        ensures
            final(self).inv(),
            old(self).rest().len() == 0 ==> r is None && *final(self) == *old(self),
            old(self).rest().len() > 0 ==> r == Some(old(self).rest()[0]) && final(self).rest()
                == old(self).rest().drop_first(),
    {
        if self.pos < self.records.len() {
            let v = self.records[self.pos];
            self.pos = self.pos + 1;
            assert(self.records@.skip(self.pos as int) =~= self.records@.skip(self.pos - 1).drop_first());
            Some(v)
        } else {
            None
        }
    }
}

/// Idle buffers, all empty and of one capacity.
pub struct BufferPool {
    buffers: Vec<Vec<i32>>,
    capacity: usize,
}

impl BufferPool {
    /// Number of idle buffers.
    pub closed spec fn idle(&self) -> nat {
        self.buffers@.len()
    }

    pub closed spec fn wf(&self) -> bool {
        forall|i: int| 0 <= i < self.buffers@.len() ==> (#[trigger] self.buffers@[i])@.len() == 0
    }

    /// A pool seeded with `buffer_count` empty buffers of `capacity` records.
    pub fn new(buffer_count: usize, capacity: usize) -> (r: Self)
        ensures
            r.wf(),
            r.idle() == buffer_count,
    {
        let mut buffers: Vec<Vec<i32>> = Vec::new();
        let mut i: usize = 0;
        while i < buffer_count
            invariant
                i <= buffer_count,
                buffers@.len() == i,
                forall|j: int| 0 <= j < i ==> (#[trigger] buffers@[j])@.len() == 0,
            decreases buffer_count - i,
        {
            buffers.push(Vec::with_capacity(capacity));
            i = i + 1;
        }
        BufferPool { buffers, capacity }
    }

    /// Takes an idle buffer, or a new one when none is idle.
    pub fn acquire(&mut self) -> (r: Vec<i32>)
        requires
            old(self).wf(),
        ensures
            final(self).wf(),
            r@.len() == 0,
            old(self).idle() > 0 ==> final(self).idle() == old(self).idle() - 1,
            old(self).idle() == 0 ==> final(self).idle() == 0,
    {
        match self.buffers.pop() {
            Some(b) => b,
            None => Vec::with_capacity(self.capacity),
        }
    }

    /// Clears a buffer and makes it idle.
    pub fn release(&mut self, buffer: Vec<i32>)
        requires
            old(self).wf(),
        ensures
            final(self).wf(),
            final(self).idle() == old(self).idle() + 1,
    {
        let mut buffer = buffer;
        buffer.clear();
        self.buffers.push(buffer);
    }

    pub fn available(&self) -> (r: usize)
        ensures
            r == self.idle(),
    {
        self.buffers.len()
    }
}

/// One run being merged: the buffer read from, an optional prefetched buffer,
/// and the records not yet buffered.
pub struct RunBuffer {
    id: usize,
    source: RunSource,
    primary: Vec<i32>,
    primary_pos: usize,
    secondary: Option<Vec<i32>>,
    buffer_capacity: usize,
    refill_count: u64,
    finished: bool,
}

pub open spec fn opt_seq(o: Option<Vec<i32>>) -> Seq<i32> {
    match o {
        Some(v) => v@,
        None => Seq::empty(),
    }
}

/// A counter that grows by one and stops at its largest value.
pub open spec fn bump(c: u64) -> u64 {
    if c < u64::MAX {
        (c + 1) as u64
    } else {
        c
    }
}

pub open spec fn min_len(cap: int, len: int) -> int {
    if cap < len {
        cap
    } else {
        len
    }
}

impl RunBuffer {
    pub closed spec fn inv(&self) -> bool {
        &&& self.source.inv()
        &&& self.buffer_capacity >= 1
        &&& !self.finished ==> self.primary_pos < self.primary@.len()
        &&& self.finished ==> self.secondary is None && self.source.rest().len() == 0
        &&& self.secondary matches Some(s) ==> s@.len() > 0
    }

    /// Records of the primary buffer not yet handed out.
    pub closed spec fn current_buffer(&self) -> Seq<i32> {
        if self.finished {
            Seq::empty()
        } else {
            self.primary@.skip(self.primary_pos as int)
        }
    }

    /// Records of the prefetched buffer.
    pub closed spec fn spare(&self) -> Seq<i32> {
        opt_seq(self.secondary)
    }

    /// Records of the run not yet in a buffer.
    pub closed spec fn unbuffered_records(&self) -> Seq<i32> {
        self.source.rest()
    }

    pub closed spec fn capacity(&self) -> int {
        self.buffer_capacity as int
    }

    pub closed spec fn finished_spec(&self) -> bool {
        self.finished
    }

    pub closed spec fn has_secondary_spec(&self) -> bool {
        self.secondary is Some
    }

    pub closed spec fn refills(&self) -> u64 {
        self.refill_count
    }

    /// The records of the run not yet handed out, in order.
    pub open spec fn pending(&self) -> Seq<i32> {
        if self.finished_spec() {
            Seq::empty()
        } else {
            self.current_buffer() + self.spare() + self.unbuffered_records()
        }
    }

    /// Number of pool buffers this run holds.
    pub open spec fn held(&self) -> nat {
        if self.finished_spec() {
            0
        } else if self.has_secondary_spec() {
            2
        } else {
            1
        }
    }

    pub open spec fn unbuffered(&self) -> nat {
        self.unbuffered_records().len()
    }

    /// What the invariant shows through the views: a run is finished exactly
    /// when it has nothing left to hand out; an unfinished run has a record in
    /// its primary buffer; a prefetched buffer is never empty.
    pub open spec fn views_ok(&self) -> bool {
        &&& self.capacity() >= 1
        &&& self.finished_spec() <==> self.pending().len() == 0
        &&& !self.finished_spec() ==> self.current_buffer().len() > 0
        &&& self.finished_spec() ==> self.spare().len() == 0 && self.unbuffered_records().len() == 0
        &&& self.has_secondary_spec() <==> self.spare().len() > 0
    }

    pub proof fn lemma_views(&self)
        requires
            self.inv(),
        ensures
            self.views_ok(),
    {
    }

    /// Fills `buffer` with the next `min(capacity, left)` records of `source`;
    /// it is short only when the run has no more.
    fn fill_buffer(source: &mut RunSource, buffer: &mut Vec<i32>, capacity: usize)
        requires
            old(source).inv(),
            capacity >= 1,
        ensures
            final(source).inv(),
            final(buffer)@ == old(source).rest().take(min_len(capacity as int, old(source).rest().len() as int)),
            final(source).rest() == old(source).rest().skip(min_len(capacity as int, old(source).rest().len() as int)),
            old(source).rest().len() == 0 ==> *final(source) == *old(source),
    {
        buffer.clear();
        let ghost r0 = source.rest();
        let mut i: usize = 0;
        while i < capacity
            invariant
                source.inv(),
                buffer@ + source.rest() == r0,
                r0 == old(source).rest(),
                buffer@.len() == i,
                i <= capacity,
                capacity >= 1,
                r0.len() == 0 ==> *source == *old(source),
            ensures
                source.inv(),
                buffer@ + source.rest() == r0,
                buffer@.len() == capacity || source.rest().len() == 0,
                r0.len() == 0 ==> *source == *old(source),
            decreases capacity - i,
        {
            let ghost b0 = buffer@;
            let ghost s0 = source.rest();
            match source.next_record() {
                Some(value) => {
                    buffer.push(value);
                    assert(buffer@ + source.rest() =~= b0 + s0);
                },
                None => {
                    break;
                },
            }
            i = i + 1;
        }
        let ghost m = min_len(capacity as int, r0.len() as int);
        assert(buffer@.len() == m);
        assert(buffer@ =~= r0.take(m));
        assert(source.rest() =~= r0.skip(m));
    }

    /// Wraps a run and fills its first buffer from the pool; a run with no
    /// records is finished at once and gives the buffer back.
    pub fn new(id: usize, records: Vec<i32>, buffer_capacity: usize, buffer_pool: &mut BufferPool) -> (r: Self)
        requires
            buffer_capacity >= 1,
            old(buffer_pool).wf(),
            old(buffer_pool).idle() >= 1,
        ensures
            r.inv(),
            r.views_ok(),
            r.capacity() == buffer_capacity,
            r.pending() == records@,
            r.current_buffer() == records@.take(min_len(buffer_capacity as int, records@.len() as int)),
            r.unbuffered_records() == records@.skip(min_len(buffer_capacity as int, records@.len() as int)),
            r.spare().len() == 0,
            !r.has_secondary_spec(),
            r.finished_spec() <==> records@.len() == 0,
            r.refills() == if records@.len() == 0 { 0u64 } else { 1u64 },
            r.held() == if records@.len() == 0 { 0nat } else { 1nat },
            final(buffer_pool).wf(),
            final(buffer_pool).idle() + r.held() == old(buffer_pool).idle(),
    {
        let mut source = RunSource::new(records);
        let mut primary = buffer_pool.acquire();
        Self::fill_buffer(&mut source, &mut primary, buffer_capacity);
        let finished = primary.len() == 0;
        if finished {
            buffer_pool.release(primary);
            primary = Vec::new();
        }
        let r = RunBuffer {
            id,
            source,
            primary,
            primary_pos: 0,
            secondary: None,
            buffer_capacity,
            refill_count: if finished { 0 } else { 1 },
            finished,
        };
        assert(r.primary@.skip(0) =~= r.primary@);
        assert(r.pending() =~= records@);
        if finished {
            assert(records@.len() == 0);
            assert(r.current_buffer() =~= records@.take(0));
            assert(r.unbuffered_records() =~= records@.skip(0));
        }
        r
    }

    /// The next record of the run, `None` once it is finished.
    pub fn current_value(&self) -> (r: Option<i32>)
        requires
            self.inv(),
        ensures
            self.pending().len() == 0 ==> r is None,
            self.pending().len() > 0 ==> r == Some(self.pending()[0]),
    {
        if self.finished || self.primary_pos >= self.primary.len() {
            None
        } else {
            Some(self.primary[self.primary_pos])
        }
    }

    /// Moves past the current record. A drained primary buffer is replaced by
    /// the prefetched one, or else refilled from the run; a run with nothing
    /// left is finished and all its buffers go back to the pool. Each
    /// replacement of the primary buffer counts as one refill.
    pub fn advance(&mut self, buffer_pool: &mut BufferPool)
        requires
            old(self).inv(),
            old(buffer_pool).wf(),
        ensures
            final(self).inv(),
            final(self).views_ok(),
            final(buffer_pool).wf(),
            final(self).capacity() == old(self).capacity(),
            old(self).finished_spec() ==> *final(self) == *old(self) && *final(buffer_pool) == *old(
                buffer_pool,
            ),
            !old(self).finished_spec() ==> final(self).pending() == old(self).pending().drop_first(),
            final(buffer_pool).idle() + final(self).held() == old(buffer_pool).idle() + old(
                self,
            ).held(),
            // records remain in the primary buffer
            !old(self).finished_spec() && old(self).current_buffer().len() > 1 ==> {
                &&& final(self).current_buffer() == old(self).current_buffer().drop_first()
                &&& final(self).spare() == old(self).spare()
                &&& final(self).unbuffered_records() == old(self).unbuffered_records()
                &&& final(self).refills() == old(self).refills()
                &&& !final(self).finished_spec()
                &&& final(buffer_pool).idle() == old(buffer_pool).idle()
            },
            // the primary buffer drains and the prefetched one takes its place
            !old(self).finished_spec() && old(self).current_buffer().len() == 1
                && old(self).has_secondary_spec() ==> {
                &&& final(self).current_buffer() == old(self).spare()
                &&& !final(self).has_secondary_spec()
                &&& final(self).unbuffered_records() == old(self).unbuffered_records()
                &&& final(self).refills() == bump(old(self).refills())
                &&& !final(self).finished_spec()
                &&& final(buffer_pool).idle() == old(buffer_pool).idle() + 1
            },
            // the primary buffer drains and is refilled from the run
            !old(self).finished_spec() && old(self).current_buffer().len() == 1
                && !old(self).has_secondary_spec() && old(self).unbuffered() > 0 ==> {
                let m = min_len(old(self).capacity(), old(self).unbuffered() as int);
                &&& final(self).current_buffer() == old(self).unbuffered_records().take(m)
                &&& final(self).unbuffered_records() == old(self).unbuffered_records().skip(m)
                &&& !final(self).has_secondary_spec()
                &&& final(self).refills() == bump(old(self).refills())
                &&& !final(self).finished_spec()
                &&& final(buffer_pool).idle() == old(buffer_pool).idle()
            },
            // the last record is handed out
            !old(self).finished_spec() && old(self).current_buffer().len() == 1
                && !old(self).has_secondary_spec() && old(self).unbuffered() == 0 ==> {
                &&& final(self).finished_spec()
                &&& final(self).refills() == old(self).refills()
                &&& final(buffer_pool).idle() == old(buffer_pool).idle() + 1
            },
    {
        if self.finished {
            return;
        }
        let ghost p0 = self.pending();
        let ghost old_self = *self;
        let ghost pos0 = self.primary_pos as int;
        let n = self.primary.len();
        self.primary_pos = self.primary_pos + 1;
        if self.primary_pos < self.primary.len() {
            assert(self.primary@.skip(self.primary_pos as int) =~= self.primary@.skip(pos0).drop_first());
            assert(self.pending() =~= p0.drop_first());
            return;
        }
        assert(self.primary@.skip(pos0) =~= seq![self.primary@[pos0]]);
        self.primary_pos = 0;
        let mut taken: Option<Vec<i32>> = None;
        std::mem::swap(&mut self.secondary, &mut taken);
        match taken {
            Some(secondary) => {
                let mut old_primary = secondary;
                std::mem::swap(&mut self.primary, &mut old_primary);
                buffer_pool.release(old_primary);
                if self.refill_count < u64::MAX {
                    self.refill_count = self.refill_count + 1;
                }
                assert(self.primary@.skip(0) =~= self.primary@);
                assert(self.pending() =~= p0.drop_first());
            },
            None => {
                let mut old_primary: Vec<i32> = Vec::new();
                std::mem::swap(&mut self.primary, &mut old_primary);
                buffer_pool.release(old_primary);
                let mut buffer = buffer_pool.acquire();
                Self::fill_buffer(&mut self.source, &mut buffer, self.buffer_capacity);
                if buffer.len() == 0 {
                    buffer_pool.release(buffer);
                    self.finished = true;
                    assert(p0 =~= seq![p0[0]]);
                    assert(self.pending() =~= p0.drop_first());
                } else {
                    self.primary = buffer;
                    if self.refill_count < u64::MAX {
                        self.refill_count = self.refill_count + 1;
                    }
                    assert(self.primary@.skip(0) =~= self.primary@);
                    assert(self.pending() =~= p0.drop_first());
                }
            },
        }
    }

    /// Fills `buffer` as the prefetched buffer with the next
    /// `min(capacity, left)` records; hands it back when the run is finished,
    /// already has one, or has no records left to buffer.
    pub fn try_prefetch(&mut self, buffer: Vec<i32>) -> (r: Option<Vec<i32>>)
        requires
            old(self).inv(),
        ensures
            final(self).inv(),
            final(self).views_ok(),
            final(self).pending() == old(self).pending(),
            final(self).held() + (if r is Some { 1int } else { 0int }) == old(self).held() + 1,
            final(self).finished_spec() == old(self).finished_spec(),
            final(self).refills() == old(self).refills(),
            final(self).capacity() == old(self).capacity(),
            old(self).finished_spec() || old(self).has_secondary_spec() ==> r == Some(buffer)
                && *final(self) == *old(self),
            !old(self).finished_spec() && !old(self).has_secondary_spec() && old(self).unbuffered()
                == 0 ==> (r matches Some(b) && b@.len() == 0) && *final(self) == *old(self),
            !old(self).finished_spec() && !old(self).has_secondary_spec() && old(self).unbuffered()
                > 0 ==> {
                let m = min_len(old(self).capacity(), old(self).unbuffered() as int);
                &&& r is None
                &&& final(self).has_secondary_spec()
                &&& final(self).spare() == old(self).unbuffered_records().take(m)
                &&& final(self).unbuffered_records() == old(self).unbuffered_records().skip(m)
                &&& final(self).current_buffer() == old(self).current_buffer()
            },
    {
        if self.finished || self.secondary.is_some() {
            return Some(buffer);
        }
        let mut buffer = buffer;
        let ghost p0 = self.pending();
        Self::fill_buffer(&mut self.source, &mut buffer, self.buffer_capacity);
        if buffer.len() == 0 {
            Some(buffer)
        } else {
            self.secondary = Some(buffer);
            assert(self.pending() =~= p0);
            None
        }
    }

    pub fn has_secondary_buffer(&self) -> (r: bool)
        ensures
            r == self.has_secondary_spec(),
    {
        self.secondary.is_some()
    }

    pub fn refill_count(&self) -> (r: u64)
        ensures
            r == self.refills(),
    {
        self.refill_count
    }

    pub fn is_finished(&self) -> (r: bool)
        ensures
            r == self.finished_spec(),
            self.inv() ==> (r <==> self.pending().len() == 0),
    {
        self.finished
    }

    /// Gives every buffer the run holds back to the pool; the run is then
    /// finished.
    pub fn release_all_buffers(&mut self, buffer_pool: &mut BufferPool)
        requires
            old(self).inv(),
            old(buffer_pool).wf(),
        ensures
            final(buffer_pool).wf(),
            final(self).finished_spec(),
            final(self).held() == 0,
            final(self).pending().len() == 0,
            final(buffer_pool).idle() == old(buffer_pool).idle() + old(self).held(),
            old(self).finished_spec() ==> *final(self) == *old(self),
    {
        if self.finished {
            return;
        }
        let mut primary: Vec<i32> = Vec::new();
        std::mem::swap(&mut self.primary, &mut primary);
        buffer_pool.release(primary);
        let mut taken: Option<Vec<i32>> = None;
        std::mem::swap(&mut self.secondary, &mut taken);
        if let Some(buffer) = taken {
            buffer_pool.release(buffer);
        }
        self.finished = true;
    }
}

/// Buffers held by all the runs.
pub open spec fn total_held(s: Seq<RunBuffer>) -> int
    decreases s.len(),
{
    if s.len() == 0 {
        0
    } else {
        total_held(s.drop_last()) + s.last().held()
    }
}

/// Records not yet handed out by any of the runs.
pub open spec fn pending_all(s: Seq<RunBuffer>) -> Multiset<i32>
    decreases s.len(),
{
    if s.len() == 0 {
        Multiset::empty()
    } else {
        pending_all(s.drop_last()).add(s.last().pending().to_multiset())
    }
}

/// Pool conservation: the idle buffers and those the runs hold make up the
/// budget.
pub open spec fn conserved(pool: BufferPool, s: Seq<RunBuffer>, budget: int) -> bool {
    pool.idle() + total_held(s) == budget
}

proof fn lemma_runs_update(s: Seq<RunBuffer>, i: int, x: RunBuffer)
    requires
        0 <= i < s.len(),
    ensures
        total_held(s.update(i, x)) == total_held(s) - s[i].held() + x.held(),
        pending_all(s.update(i, x)).add(s[i].pending().to_multiset()) =~= pending_all(s).add(
            x.pending().to_multiset(),
        ),
    decreases s.len(),
{
    let u = s.update(i, x);
    let d = s.drop_last();
    assert(pending_all(u) == pending_all(u.drop_last()).add((u.last()).pending().to_multiset()));
    assert(pending_all(s) == pending_all(d).add((s.last()).pending().to_multiset()));
    if i == s.len() - 1 {
        assert(u.drop_last() =~= d);
        assert(u.last() == x);
        assert forall|v: i32| #[trigger] pending_all(u).add((s[i]).pending().to_multiset()).count(v) == pending_all(s).add(
            (x).pending().to_multiset(),
        ).count(v) by {
            assert(pending_all(u).count(v) == pending_all(d).count(v) + (x).pending().to_multiset().count(v));
            assert(pending_all(s).count(v) == pending_all(d).count(v) + (s[i]).pending().to_multiset().count(v));
        }
    } else {
        lemma_runs_update(d, i, x);
        assert(u.drop_last() =~= d.update(i, x));
        assert(u.last() == s.last());
        assert(d[i] == s[i]);
        assert forall|v: i32| #[trigger] pending_all(u).add((s[i]).pending().to_multiset()).count(v) == pending_all(s).add(
            (x).pending().to_multiset(),
        ).count(v) by {
            assert(pending_all(u).count(v) == pending_all(d.update(i, x)).count(v) + (s.last()).pending().to_multiset().count(v));
            assert(pending_all(s).count(v) == pending_all(d).count(v) + (s.last()).pending().to_multiset().count(v));
            assert(pending_all(d.update(i, x)).add((d[i]).pending().to_multiset()).count(v) == pending_all(d).add((x).pending().to_multiset()).count(v));
        }
    }
}

proof fn lemma_pending_all_same(s: Seq<RunBuffer>, t: Seq<RunBuffer>)
    requires
        s.len() == t.len(),
        forall|i: int| 0 <= i < s.len() ==> (#[trigger] s[i]).pending() == t[i].pending(),
    ensures
        pending_all(s) == pending_all(t),
    decreases s.len(),
{
    if s.len() > 0 {
        lemma_pending_all_same(s.drop_last(), t.drop_last());
    }
}

proof fn lemma_pending_all_empty(s: Seq<RunBuffer>)
    requires
        forall|i: int| 0 <= i < s.len() ==> (#[trigger] s[i]).pending().len() == 0,
    ensures
        pending_all(s) =~= Multiset::<i32>::empty(),
    decreases s.len(),
{
    if s.len() > 0 {
        lemma_pending_all_empty(s.drop_last());
        assert(s.last().pending() =~= Seq::<i32>::empty());
    }
}

/// May take a spare buffer: not finished and without a prefetched buffer.
pub open spec fn eligible(rb: RunBuffer) -> bool {
    !rb.finished_spec() && !rb.has_secondary_spec()
}

/// Run `i` is the eligible run refilled most often, the first among equals.
pub open spec fn hottest(s: Seq<RunBuffer>, i: int) -> bool {
    &&& 0 <= i < s.len()
    &&& eligible(s[i])
    &&& forall|j: int| 0 <= j < s.len() && eligible(#[trigger] s[j]) ==> s[j].refills() <= s[i].refills()
    &&& forall|j: int| 0 <= j < i && eligible(#[trigger] s[j]) ==> s[j].refills() < s[i].refills()
}

impl BufferPool {
    /// Hands an idle buffer, if any, to the hottest run as its prefetched
    /// buffer; the buffer comes back when that run has nothing left to buffer.
    pub fn assign_extra_buffer(&mut self, run_buffers: &mut Vec<RunBuffer>)
        requires
            old(self).wf(),
            forall|i: int| 0 <= i < old(run_buffers)@.len() ==> (#[trigger] old(run_buffers)@[i]).inv(),
        ensures
            final(self).wf(),
            final(run_buffers)@.len() == old(run_buffers)@.len(),
            forall|i: int| 0 <= i < final(run_buffers)@.len() ==> {
                &&& (#[trigger] final(run_buffers)@[i]).inv()
                &&& final(run_buffers)@[i].pending() == old(run_buffers)@[i].pending()
                &&& final(run_buffers)@[i].finished_spec() == old(run_buffers)@[i].finished_spec()
                &&& final(run_buffers)@[i] != old(run_buffers)@[i] ==> old(self).idle() > 0
                    && hottest(old(run_buffers)@, i)
                &&& old(self).idle() > 0 && hottest(old(run_buffers)@, i) && old(run_buffers)@[i].unbuffered()
                    > 0 ==> {
                    let m = min_len(old(run_buffers)@[i].capacity(), old(run_buffers)@[i].unbuffered() as int);
                    &&& final(run_buffers)@[i].has_secondary_spec()
                    &&& final(run_buffers)@[i].spare() == old(run_buffers)@[i].unbuffered_records().take(m)
                    &&& final(run_buffers)@[i].unbuffered_records() == old(run_buffers)@[i].unbuffered_records().skip(m)
                    &&& final(run_buffers)@[i].current_buffer() == old(run_buffers)@[i].current_buffer()
                    &&& final(self).idle() == old(self).idle() - 1
                }
                &&& final(run_buffers)@[i].views_ok()
            },
            (forall|i: int|
                0 <= i < old(run_buffers)@.len() ==> !(old(self).idle() > 0 && #[trigger] hottest(
                    old(run_buffers)@,
                    i,
                ) && old(run_buffers)@[i].unbuffered() > 0)) ==> final(run_buffers)@ == old(
                run_buffers,
            )@ && final(self).idle() == old(self).idle(),
            final(self).idle() + total_held(final(run_buffers)@) == old(self).idle() + total_held(
                old(run_buffers)@,
            ),
    {
        if self.available() == 0 {
            return;
        }
        let mut best: Option<usize> = None;
        let mut i: usize = 0;
        while i < run_buffers.len()
            invariant
                i <= run_buffers@.len(),
                run_buffers@ == old(run_buffers)@,
                match best {
                    Some(b) => b < i && eligible(run_buffers@[b as int]) && (forall|j: int|
                        0 <= j < i && eligible(#[trigger] run_buffers@[j]) ==> run_buffers@[j].refills()
                            <= run_buffers@[b as int].refills()) && (forall|j: int|
                        0 <= j < b && eligible(#[trigger] run_buffers@[j]) ==> run_buffers@[j].refills()
                            < run_buffers@[b as int].refills()),
                    None => forall|j: int| 0 <= j < i ==> !eligible(#[trigger] run_buffers@[j]),
                },
            decreases run_buffers@.len() - i,
        {
            if !run_buffers[i].is_finished() && !run_buffers[i].has_secondary_buffer() {
                match best {
                    Some(b) => {
                        if run_buffers[i].refill_count() > run_buffers[b].refill_count() {
                            best = Some(i);
                        }
                    },
                    None => {
                        best = Some(i);
                    },
                }
            }
            i = i + 1;
        }
        match best {
            Some(idx) => {
                let ghost s0 = run_buffers@;
                assert(hottest(s0, idx as int));
                let buffer = self.acquire();
                let returned = run_buffers[idx].try_prefetch(buffer);
                proof {
                    lemma_runs_update(s0, idx as int, run_buffers@[idx as int]);
                    assert(run_buffers@ =~= s0.update(idx as int, run_buffers@[idx as int]));
                }
                if let Some(b) = returned {
                    self.release(b);
                }
            },
            None => {},
        }
    }
}


/// The key a run presents to the loser tree: its next record, or `INF` once
/// it has none.
pub open spec fn key_of(rb: RunBuffer) -> i64 {
    if rb.pending().len() > 0 {
        rb.pending()[0] as i64
    } else {
        INF
    }
}

fn current_key(rb: &RunBuffer) -> (r: i64)
    requires
        rb.inv(),
    ensures
        r == key_of(*rb),
{
    match rb.current_value() {
        Some(v) => v as i64,
        None => INF,
    }
}

/// Merges the runs at once with a loser tree: one pool buffer per run plus
/// `extra_input_buffers` spare ones of `buffer_capacity` records. Where every
/// run is sorted, so is the result.
pub fn k_way_merge(runs: &Vec<Vec<i32>>, extra_input_buffers: usize, buffer_capacity: usize) -> (r: Vec<i32>)
    requires
        buffer_capacity >= 1,
        runs.len() + extra_input_buffers < usize::MAX / 2,
    ensures
        r@.to_multiset() == runs@.map_values(|v: Vec<i32>| v@).flatten().to_multiset(),
        (forall|j: int| 0 <= j < runs.len() ==> sorted(#[trigger] runs@[j]@)) ==> sorted(r@),
{
    let n = runs.len();
    let ghost rv = runs@.map_values(|v: Vec<i32>| v@);
    let ghost all_sorted = forall|j: int| 0 <= j < runs.len() ==> sorted(#[trigger] runs@[j]@);
    let ghost budget = (n + extra_input_buffers) as int;
    let mut buffer_pool = BufferPool::new(n + extra_input_buffers, buffer_capacity);
    let mut run_buffers: Vec<RunBuffer> = Vec::new();
    let mut keys: Vec<i64> = Vec::new();
    let mut j: usize = 0;
    while j < n
        invariant
            j <= n == runs.len(),
            rv == runs@.map_values(|v: Vec<i32>| v@),
            buffer_capacity >= 1,
            buffer_pool.wf(),
            conserved(buffer_pool, run_buffers@, budget),
            budget == n + extra_input_buffers,
            total_held(run_buffers@) <= j,
            run_buffers@.len() == j,
            keys@.len() == j,
            forall|i: int| 0 <= i < j ==> (#[trigger] run_buffers@[i]).inv(),
            forall|i: int| 0 <= i < j ==> (#[trigger] run_buffers@[i]).pending() == rv[i],
            forall|i: int| 0 <= i < j ==> #[trigger] keys@[i] == key_of(run_buffers@[i]),
            pending_all(run_buffers@) == rv.take(j as int).flatten().to_multiset(),
        decreases n - j,
    {
        let ghost s0 = run_buffers@;
        let records = copy_run(&runs[j]);
        let rb = RunBuffer::new(j, records, buffer_capacity, &mut buffer_pool);
        let key = current_key(&rb);
        run_buffers.push(rb);
        keys.push(key);
        proof {
            assert(run_buffers@.drop_last() =~= s0);
            assert(rb.held() <= 1);
            assert(rv.take(j + 1) =~= rv.take(j as int).push(rv[j as int]));
            rv.take(j as int).lemma_flatten_push(rv[j as int]);
            vstd::seq_lib::lemma_multiset_commutative(rv.take(j as int).flatten(), rv[j as int]);
        }
        j = j + 1;
    }
    proof {
        assert(rv.take(n as int) =~= rv);
    }
    let mut out: Vec<i32> = Vec::new();
    if n == 0 {
        proof {
            assert(rv =~= Seq::<Seq<i32>>::empty());
            assert(pending_all(run_buffers@) =~= Multiset::empty());
            assert(out@.to_multiset() =~= Multiset::empty());
        }
        return out;
    }
    let mut loser_tree = LoserTree::new(keys);
    let ghost s1 = run_buffers@;
    buffer_pool.assign_extra_buffer(&mut run_buffers);
    proof {
        lemma_pending_all_same(s1, run_buffers@);
        if all_sorted {
            assert forall|i: int| 0 <= i < n implies sorted(#[trigger] run_buffers@[i].pending()) by {
                assert(sorted(runs@[i]@));
                assert(rv[i] == runs@[i]@);
                assert(run_buffers@[i].pending() == s1[i].pending());
            }
        }
    }
    loop
        invariant_except_break
            n == run_buffers@.len() == loser_tree.slots().len(),
            loser_tree.valid(),
            loser_tree.wf(),
            buffer_pool.wf(),
            conserved(buffer_pool, run_buffers@, budget),
            forall|i: int| 0 <= i < n ==> (#[trigger] run_buffers@[i]).inv(),
            forall|i: int| 0 <= i < n ==> #[trigger] loser_tree.slots()[i] == (key_of(run_buffers@[i]), false),
            all_sorted ==> forall|i: int| 0 <= i < n ==> sorted(#[trigger] run_buffers@[i].pending()),
            out@.to_multiset().add(pending_all(run_buffers@)) == rv.flatten().to_multiset(),
            all_sorted ==> sorted(out@),
            all_sorted && out@.len() > 0 ==> forall|i: int, t: int|
                0 <= i < n && 0 <= t < run_buffers@[i].pending().len() ==> out@.last()
                    <= #[trigger] run_buffers@[i].pending()[t],
        ensures
            out@.to_multiset() == rv.flatten().to_multiset(),
            all_sorted ==> sorted(out@),
        decreases pending_all(run_buffers@).len(),
    {
        let winner_idx = loser_tree.get_winner_idx();
        let winner_key = loser_tree.get_key(winner_idx);
        proof {
            loser_tree.lemma_winner_is_least();
        }
        if winner_key == INF {
            proof {
                assert forall|i: int| 0 <= i < n implies (#[trigger] run_buffers@[i]).pending().len() == 0 by {
                    assert(loser_tree.key_at(i) >= INF);
                    assert(loser_tree.slots()[i] == (key_of(run_buffers@[i]), false));
                    if run_buffers@[i].pending().len() > 0 {
                        assert(key_of(run_buffers@[i]) == run_buffers@[i].pending()[0] as i64);
                    }
                }
                lemma_pending_all_empty(run_buffers@);
                assert(out@.to_multiset().add(Multiset::empty()) =~= out@.to_multiset());
            }
            break;
        }
        let ghost w = winner_idx as int;
        let ghost t0 = loser_tree;
        let ghost s0 = run_buffers@;
        let ghost o0 = out@;
        let ghost p0 = s0[w].pending();
        proof {
            assert(loser_tree.slots()[w] == (key_of(s0[w]), false));
            assert(p0.len() > 0);
            assert(winner_key == p0[0] as i64);
        }
        let record = winner_key as i32;
        out.push(record);
        run_buffers[winner_idx].advance(&mut buffer_pool);
        let ghost s2 = run_buffers@;
        proof {
            lemma_runs_update(s0, w, s2[w]);
            assert(s2 =~= s0.update(w, s2[w]));
            assert(p0 =~= seq![record] + p0.drop_first());
            vstd::seq_lib::lemma_multiset_commutative(seq![record], p0.drop_first());
            assert(seq![record] =~= Seq::<i32>::empty().push(record));
        }
        buffer_pool.assign_extra_buffer(&mut run_buffers);
        let new_key = current_key(&run_buffers[winner_idx]);
        loser_tree.replace_and_replay(winner_idx, (new_key, false));
        proof {
            let s3 = run_buffers@;
            lemma_pending_all_same(s2, s3);
            assert forall|v: i32| #[trigger] out@.to_multiset().add(pending_all(s3)).count(v)
                == rv.flatten().to_multiset().count(v) by {
                assert(out@.to_multiset().count(v) == o0.to_multiset().count(v) + Multiset::singleton(
                    record,
                ).count(v));
                assert(p0.to_multiset().count(v) == Multiset::singleton(record).count(v)
                    + p0.drop_first().to_multiset().count(v));
                assert(pending_all(s2).add(p0.to_multiset()).count(v) == pending_all(s0).add(
                    s2[w].pending().to_multiset(),
                ).count(v));
                assert(o0.to_multiset().add(pending_all(s0)).count(v) == rv.flatten().to_multiset().count(v));
            }
            assert(out@.to_multiset().add(pending_all(s3)) =~= rv.flatten().to_multiset());
            assert(pending_all(s2).add(p0.to_multiset()).len() == pending_all(s0).add(
                s2[w].pending().to_multiset(),
            ).len());
            assert(s2[w].pending().len() + 1 == p0.len());
            assert(pending_all(s3).len() < pending_all(s0).len());
            assert forall|i: int| 0 <= i < n implies #[trigger] loser_tree.slots()[i] == (
            key_of(run_buffers@[i]), false) by {
                assert(s3[i].pending() == s2[i].pending());
                if i != w {
                    assert(s2[i] == s0[i]);
                }
            }
            if all_sorted {
                assert forall|i: int| 0 <= i < n implies sorted(#[trigger] run_buffers@[i].pending()) by {
                    assert(s3[i].pending() == s2[i].pending());
                    if i != w {
                        assert(s2[i] == s0[i]);
                    } else {
                        assert(sorted(p0));
                        assert(s2[w].pending() =~= p0.drop_first());
                    }
                }
                assert forall|x: int, y: int| 0 <= x < y < out@.len() implies out@[x] <= out@[y] by {
                    if y == out@.len() - 1 && x < o0.len() {
                        assert(o0[x] <= o0.last());
                        assert(sorted(p0));
                    }
                }
                assert forall|i: int, t: int|
                    0 <= i < n && 0 <= t < run_buffers@[i].pending().len() implies out@.last()
                        <= #[trigger] run_buffers@[i].pending()[t] by {
                    assert(s3[i].pending() == s2[i].pending());
                    let pi = s0[i].pending();
                    if i != w {
                        assert(s2[i] == s0[i]);
                        assert(sorted(pi));
                        assert(t0.slots()[i] == (key_of(s0[i]), false));
                        assert(t0.key_at(w) <= t0.key_at(i));
                        assert(pi[0] <= pi[t]);
                    } else {
                        assert(sorted(p0));
                        assert(p0[0] <= p0[t + 1]);
                    }
                }
            }
        }
    }
    out
}


/// Default number of records per buffer.
pub const DEFAULT_BUFFER_CAPACITY: usize = 1024;

/// Settings of the k-way merge.
pub struct Project4Config {
    /// Directory that holds the initial runs.
    pub runs_dir: String,
    /// Path of the sorted output.
    pub output_file: String,
    /// Most runs merged at once.
    pub max_k: usize,
    /// Spare buffers beyond one per merged run.
    pub extra_input_buffers: usize,
    /// Records per buffer.
    pub buffer_capacity: usize,
}

impl Project4Config {
    /// The given paths with the default sizes: 16 runs at once, 2 spare
    /// buffers, 1024 records per buffer.
    pub fn with_paths(runs_dir: String, output_file: String) -> (r: Self)
        ensures
            r.runs_dir@ == runs_dir@,
            r.output_file@ == output_file@,
            r.max_k == 16,
            r.extra_input_buffers == 2,
            r.buffer_capacity == DEFAULT_BUFFER_CAPACITY,
    {
        Project4Config {
            runs_dir,
            output_file,
            max_k: 16,
            extra_input_buffers: 2,
            buffer_capacity: DEFAULT_BUFFER_CAPACITY,
        }
    }
}

pub open spec fn records_of(runs: Seq<Vec<i32>>) -> Seq<Seq<i32>> {
    runs.map_values(|v: Vec<i32>| v@)
}

/// Merges runs, at most `max_k` of them at a time.
pub struct KWayLoserTreeMerger {
    pub config: Project4Config,
    /// The records of each run, in the order of their files.
    pub run_files: Vec<Vec<i32>>,
}

impl KWayLoserTreeMerger {
    pub fn new(config: Project4Config, run_files: Vec<Vec<i32>>) -> (r: Self)
        ensures
            r.config == config,
            r.run_files@ == run_files@,
    {
        KWayLoserTreeMerger { config, run_files }
    }

    /// Merges every run into one sequence: the first `max_k` runs are merged
    /// into a new run placed last, until one run is left. Where every run is
    /// sorted, so is the result.
    pub fn merge(&mut self) -> (r: Vec<i32>)
        requires
            old(self).config.max_k >= 2,
            old(self).config.buffer_capacity >= 1,
            old(self).config.max_k + old(self).config.extra_input_buffers < usize::MAX / 2,
        ensures
            r@.to_multiset() == records_of(old(self).run_files@).flatten().to_multiset(),
            (forall|j: int| 0 <= j < old(self).run_files@.len() ==> sorted(
                #[trigger] old(self).run_files@[j]@,
            )) ==> sorted(r@),
            final(self).run_files@.len() == 0,
    {
        let ghost total = records_of(self.run_files@).flatten().to_multiset();
        let ghost all_sorted = forall|j: int| 0 <= j < self.run_files@.len() ==> sorted(
            #[trigger] self.run_files@[j]@,
        );
        let max_k = self.config.max_k;
        let extra = self.config.extra_input_buffers;
        let capacity = self.config.buffer_capacity;
        let mut queue: Vec<Vec<i32>> = Vec::new();
        std::mem::swap(&mut queue, &mut self.run_files);
        while queue.len() > 1
            invariant
                max_k >= 2,
                capacity >= 1,
                max_k + extra < usize::MAX / 2,
                self.run_files@.len() == 0,
                records_of(queue@).flatten().to_multiset() == total,
                all_sorted ==> forall|j: int| 0 <= j < queue@.len() ==> sorted(#[trigger] queue@[j]@),
            decreases queue.len(),
        {
            let g = if queue.len() < max_k { queue.len() } else { max_k };
            let mut group: Vec<Vec<i32>> = Vec::new();
            let ghost len0 = queue.len();
            while group.len() < g
                invariant
                    group.len() <= g <= len0,
                    queue.len() + group.len() == len0,
                    records_of(group@).flatten().to_multiset().add(records_of(queue@).flatten().to_multiset())
                        == total,
                    all_sorted ==> forall|j: int| 0 <= j < queue@.len() ==> sorted(#[trigger] queue@[j]@),
                    all_sorted ==> forall|j: int| 0 <= j < group@.len() ==> sorted(#[trigger] group@[j]@),
                decreases g - group.len(),
            {
                let ghost q0 = queue@;
                let ghost g0 = group@;
                let run = queue.remove(0);
                group.push(run);
                proof {
                    assert(records_of(q0) =~= seq![run@] + records_of(queue@));
                    assert(records_of(q0).first() == run@);
                    assert(records_of(q0).drop_first() =~= records_of(queue@));
                    assert(records_of(group@) =~= records_of(g0).push(run@));
                    records_of(g0).lemma_flatten_push(run@);
                    vstd::seq_lib::lemma_multiset_commutative(records_of(g0).flatten(), run@);
                    vstd::seq_lib::lemma_multiset_commutative(run@, records_of(queue@).flatten());
                    assert(records_of(group@).flatten().to_multiset().add(records_of(queue@).flatten().to_multiset())
                        =~= total);
                    if all_sorted {
                        assert(sorted(q0[0]@));
                        assert forall|j: int| 0 <= j < queue@.len() implies sorted(#[trigger] queue@[j]@) by {
                            assert(queue@[j] == q0[j + 1]);
                        }
                        assert forall|j: int| 0 <= j < group@.len() implies sorted(#[trigger] group@[j]@) by {
                            if j < g0.len() {
                                assert(group@[j] == g0[j]);
                            }
                        }
                    }
                }
            }
            let merged = k_way_merge(&group, extra, capacity);
            let ghost q1 = queue@;
            queue.push(merged);
            proof {
                assert(records_of(group@) =~= group@.map_values(|v: Vec<i32>| v@));
                assert(records_of(queue@) =~= records_of(q1).push(merged@));
                records_of(q1).lemma_flatten_push(merged@);
                vstd::seq_lib::lemma_multiset_commutative(records_of(q1).flatten(), merged@);
                assert(records_of(queue@).flatten().to_multiset() =~= total);
                if all_sorted {
                    assert forall|j: int| 0 <= j < queue@.len() implies sorted(#[trigger] queue@[j]@) by {
                        if j < q1.len() {
                            assert(queue@[j] == q1[j]);
                        }
                    }
                }
            }
        }
        if queue.len() == 0 {
            proof {
                assert(records_of(queue@) =~= Seq::<Seq<i32>>::empty());
            }
            Vec::new()
        } else {
            let ghost q = queue@;
            let r = queue.pop().unwrap();
            proof {
                assert(records_of(q) =~= seq![r@]);
                assert(records_of(q).drop_first() =~= Seq::<Seq<i32>>::empty());
                assert(records_of(q).drop_first().flatten() =~= Seq::<i32>::empty());
                assert(records_of(q).first() == r@);
                assert(records_of(q).flatten() == records_of(q).first() + records_of(q).drop_first().flatten());
                assert(records_of(q).flatten() =~= r@);
                if all_sorted {
                    assert(sorted(q[0]@));
                }
            }
            r
        }
    }
}

/// Length of one run, for reporting.
pub struct RunStatistic {
    pub run_id: usize,
    pub length: u64,
}

/// Lengths of all the runs.
pub struct RunStatisticsSummary {
    pub entries: Vec<RunStatistic>,
}

pub open spec fn length_sum(s: Seq<RunStatistic>) -> int
    decreases s.len(),
{
    if s.len() == 0 {
        0
    } else {
        length_sum(s.drop_last()) + s.last().length
    }
}

impl RunStatisticsSummary {
    /// One entry per run, numbered in order.
    pub fn from_runs(runs: &Vec<Vec<i32>>) -> (r: Self)
        ensures
            r.entries@.len() == runs@.len(),
            forall|i: int| 0 <= i < runs@.len() ==> (#[trigger] r.entries@[i]).run_id == i
                && r.entries@[i].length == runs@[i]@.len(),
    {
        let mut entries: Vec<RunStatistic> = Vec::new();
        let mut i: usize = 0;
        while i < runs.len()
            invariant
                i <= runs@.len(),
                entries@.len() == i,
                forall|j: int| 0 <= j < i ==> (#[trigger] entries@[j]).run_id == j
                    && entries@[j].length == runs@[j]@.len(),
            decreases runs@.len() - i,
        {
            entries.push(RunStatistic { run_id: i, length: runs[i].len() as u64 });
            i = i + 1;
        }
        RunStatisticsSummary { entries }
    }

    /// Number of runs, total, least and greatest length; `None` when there is
    /// no run.
    pub fn summary(&self) -> (r: Option<(usize, u64, u64, u64)>)
        requires
            length_sum(self.entries@) <= u64::MAX,
        ensures
            self.entries@.len() == 0 <==> r is None,
            r matches Some((count, total, min_len, max_len)) ==> {
                &&& count == self.entries@.len()
                &&& total == length_sum(self.entries@)
                &&& exists|i: int| 0 <= i < self.entries@.len() && (#[trigger] self.entries@[i]).length == min_len
                &&& exists|i: int| 0 <= i < self.entries@.len() && (#[trigger] self.entries@[i]).length == max_len
                &&& forall|i: int| 0 <= i < self.entries@.len() ==> min_len <= (#[trigger] self.entries@[i]).length
                    <= max_len
            },
    {
        if self.entries.len() == 0 {
            return None;
        }
        let mut total: u64 = 0;
        let mut min_len = self.entries[0].length;
        let mut max_len = self.entries[0].length;
        let mut i: usize = 0;
        while i < self.entries.len()
            invariant
                1 <= self.entries@.len(),
                i <= self.entries@.len(),
                total == length_sum(self.entries@.take(i as int)),
                length_sum(self.entries@) <= u64::MAX,
                exists|j: int| 0 <= j < self.entries@.len() && (#[trigger] self.entries@[j]).length == min_len,
                exists|j: int| 0 <= j < self.entries@.len() && (#[trigger] self.entries@[j]).length == max_len,
                forall|j: int| 0 <= j < i ==> min_len <= (#[trigger] self.entries@[j]).length <= max_len,
                min_len <= self.entries@[0].length <= max_len,
            decreases self.entries@.len() - i,
        {
            let ghost t = self.entries@.take(i + 1);
            proof {
                assert(t.drop_last() =~= self.entries@.take(i as int));
                lemma_length_sum_prefix(self.entries@, i + 1);
            }
            let len = self.entries[i].length;
            total = total + len;
            if len < min_len {
                min_len = len;
            }
            if len > max_len {
                max_len = len;
            }
            i = i + 1;
        }
        assert(self.entries@.take(i as int) =~= self.entries@);
        Some((self.entries.len(), total, min_len, max_len))
    }
}

proof fn lemma_length_sum_prefix(s: Seq<RunStatistic>, n: int)
    requires
        0 <= n <= s.len(),
    ensures
        0 <= length_sum(s.take(n)) <= length_sum(s),
    decreases s.len(),
{
    if s.len() > 0 {
        if n == s.len() {
            assert(s.take(n) =~= s);
            lemma_length_sum_prefix(s.drop_last(), n - 1);
            assert(s.drop_last().take(n - 1) =~= s.drop_last());
        } else {
            lemma_length_sum_prefix(s.drop_last(), n);
            assert(s.drop_last().take(n) =~= s.take(n));
        }
    }
}

} // verus!
