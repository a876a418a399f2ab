//! Run lengths for reporting: one entry per run file, ordered by run id.

use vstd::prelude::*;

verus! {

broadcast use vstd::seq_lib::group_to_multiset_ensures, vstd::multiset::group_multiset_axioms;

pub struct RunLengthEntry {
    pub run_id: u32,
    pub length: u64,
}

/// Count, total, least and greatest of the run lengths.
pub struct RunStatsSummary {
    pub run_count: usize,
    pub total_length: u64,
    pub min_length: u64,
    pub max_length: u64,
}

pub struct RunStatistics {
    pub entries: Vec<RunLengthEntry>,
}

pub open spec fn total_of(s: Seq<RunLengthEntry>) -> int
    decreases s.len(),
{
    if s.len() == 0 {
        0
    } else {
        total_of(s.drop_last()) + s.last().length
    }
}

pub open spec fn ids_ascending(s: Seq<RunLengthEntry>) -> bool {
    forall|i: int, j: int| 0 <= i < j < s.len() ==> s[i].run_id <= s[j].run_id
}

proof fn lemma_total_prefix(s: Seq<RunLengthEntry>, n: int)
    requires
        0 <= n <= s.len(),
    ensures
        0 <= total_of(s.take(n)) <= total_of(s),
    decreases s.len(),
{
    if s.len() > 0 {
        if n == s.len() {
            assert(s.take(n) =~= s);
            lemma_total_prefix(s.drop_last(), n - 1);
            assert(s.drop_last().take(n - 1) =~= s.drop_last());
        } else {
            lemma_total_prefix(s.drop_last(), n);
            assert(s.drop_last().take(n) =~= s.take(n));
        }
    }
}

impl RunStatistics {
    /// Orders the entries by run id.
    pub fn from_entries(entries: Vec<RunLengthEntry>) -> (r: Self)
        ensures
            r.entries@.to_multiset() == entries@.to_multiset(),
            ids_ascending(r.entries@),
    {
        let mut sorted: Vec<RunLengthEntry> = Vec::new();
        let mut rest = entries;
        let ghost all = rest@.to_multiset();
        assert(sorted@.to_multiset().add(rest@.to_multiset()) =~= all);
        while rest.len() > 0
            invariant
                sorted@.to_multiset().add(rest@.to_multiset()) == all,
                ids_ascending(sorted@),
            decreases rest.len(),
        {
            let ghost r0 = rest@;
            let ghost s0 = sorted@;
            let e = rest.remove(0);
            proof {
                assert(r0 =~= seq![e] + rest@);
                vstd::seq_lib::lemma_multiset_commutative(seq![e], rest@);
                assert(seq![e] =~= Seq::<RunLengthEntry>::empty().push(e));
            }
            let mut pos: usize = sorted.len();
            while pos > 0 && sorted[pos - 1].run_id > e.run_id
                invariant
                    pos <= sorted@.len(),
                    sorted@ == s0,
                    forall|j: int| pos <= j < sorted@.len() ==> sorted@[j].run_id > e.run_id,
                decreases pos,
            {
                pos = pos - 1;
            }
            sorted.insert(pos, e);
            proof {
                assert(sorted@ =~= s0.insert(pos as int, e));
                assert(sorted@.to_multiset() =~= s0.to_multiset().insert(e));
                assert forall|i: int, j: int| 0 <= i < j < sorted@.len() implies sorted@[i].run_id
                    <= sorted@[j].run_id by {
                    if pos > 0 && i < pos && j == pos {
                        assert(s0[i].run_id <= s0[pos - 1].run_id);
                    }
                }
            }
        }
        assert(rest@ =~= Seq::<RunLengthEntry>::empty());
        assert(sorted@.to_multiset() =~= sorted@.to_multiset().add(rest@.to_multiset()));
        RunStatistics { entries: sorted }
    }

    /// `None` when there is no run.
    pub fn summary(&self) -> (r: Option<RunStatsSummary>)
        requires
            total_of(self.entries@) <= u64::MAX,
        ensures
            self.entries@.len() == 0 <==> r is None,
            r matches Some(sm) ==> {
                &&& sm.run_count == self.entries@.len()
                &&& sm.total_length == total_of(self.entries@)
                &&& exists|i: int| 0 <= i < self.entries@.len() && (#[trigger] self.entries@[i]).length == sm.min_length
                &&& exists|i: int| 0 <= i < self.entries@.len() && (#[trigger] self.entries@[i]).length == sm.max_length
                &&& forall|i: int| 0 <= i < self.entries@.len() ==> sm.min_length <= (#[trigger] self.entries@[i]).length
                    <= sm.max_length
            },
    {
        if self.entries.len() == 0 {
            return None;
        }
        let mut total: u64 = 0;
        let mut min_length = self.entries[0].length;
        let mut max_length = self.entries[0].length;
        let mut i: usize = 0;
        while i < self.entries.len()
            invariant
                1 <= self.entries@.len(),
                i <= self.entries@.len(),
                total == total_of(self.entries@.take(i as int)),
                total_of(self.entries@) <= u64::MAX,
                exists|j: int| 0 <= j < self.entries@.len() && (#[trigger] self.entries@[j]).length == min_length,
                exists|j: int| 0 <= j < self.entries@.len() && (#[trigger] self.entries@[j]).length == max_length,
                forall|j: int| 0 <= j < i ==> min_length <= (#[trigger] self.entries@[j]).length <= max_length,
                min_length <= self.entries@[0].length <= max_length,
            decreases self.entries@.len() - i,
        {
            proof {
                assert(self.entries@.take(i + 1).drop_last() =~= self.entries@.take(i as int));
                lemma_total_prefix(self.entries@, i + 1);
            }
            let length = self.entries[i].length;
            total = total + length;
            if length < min_length {
                min_length = length;
            }
            if length > max_length {
                max_length = length;
            }
            i = i + 1;
        }
        assert(self.entries@.take(i as int) =~= self.entries@);
        Some(RunStatsSummary { run_count: self.entries.len(), total_length: total, min_length, max_length })
    }
}

} // verus!
