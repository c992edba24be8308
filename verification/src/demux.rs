//! The demultiplexing router and the end-of-run count validator.

use vstd::prelude::*;
use crate::index::{
    NameIndex, copy_usizes, dests_of, expected_counts, has_duplicate, lemma_dests_of,
    lemma_nonblank_contains, list_requests, lists_valid, nonblank,
};
use crate::record::SeqRecord;

verus! {

broadcast use
    vstd::seq_lib::lemma_seq_contains_after_push,
    vstd::seq_lib::group_filter_ensures;

/// Counts bumped by one at every destination named in `dests`.
pub open spec fn bump(counts: Seq<int>, dests: Seq<int>) -> Seq<int> {
    Seq::new(
        counts.len(),
        |i: int| counts[i] + if dests.contains(i) { 1int } else { 0int },
    )
}

/// Observed per-destination counts after routing the given identifiers.
pub open spec fn counts_after(lists: Seq<Seq<Seq<u8>>>, ids: Seq<Seq<u8>>) -> Seq<int>
    decreases ids.len(),
{
    if ids.len() == 0 {
        Seq::new(lists.len(), |i: int| 0int)
    } else {
        bump(counts_after(lists, ids.drop_last()), dests_of(lists, ids.last()))
    }
}

/// Total number of record deliveries after routing the given identifiers: a
/// record delivered to two destinations counts twice.
pub open spec fn assigned_after(lists: Seq<Seq<Seq<u8>>>, ids: Seq<Seq<u8>>) -> int
    decreases ids.len(),
{
    if ids.len() == 0 {
        0
    } else {
        assigned_after(lists, ids.drop_last()) + dests_of(lists, ids.last()).len()
    }
}

/// Buffers extended by `bytes` at every destination named in `dests`.
pub open spec fn append_at(outs: Seq<Seq<u8>>, dests: Seq<int>, bytes: Seq<u8>) -> Seq<Seq<u8>> {
    Seq::new(
        outs.len(),
        |i: int| if dests.contains(i) { outs[i] + bytes } else { outs[i] },
    )
}

/// The bytes delivered to each destination after routing the given records,
/// in arrival order.
pub open spec fn outputs_after(lists: Seq<Seq<Seq<u8>>>, recs: Seq<SeqRecord>) -> Seq<Seq<u8>>
    decreases recs.len(),
{
    if recs.len() == 0 {
        Seq::new(lists.len(), |i: int| Seq::<u8>::empty())
    } else {
        append_at(
            outputs_after(lists, recs.drop_last()),
            dests_of(lists, recs.last().ident_view()),
            recs.last().encoding(),
        )
    }
}

/// The identifiers of a batch of records, in order.
pub open spec fn rec_ids(recs: Seq<SeqRecord>) -> Seq<Seq<u8>> {
    recs.map_values(|r: SeqRecord| r.ident_view())
}

/// One output buffer per destination, whatever was routed.
pub proof fn lemma_outputs_len(lists: Seq<Seq<Seq<u8>>>, recs: Seq<SeqRecord>)
    ensures
        outputs_after(lists, recs).len() == lists.len(),
    decreases recs.len(),
{
    if recs.len() > 0 {
        lemma_outputs_len(lists, recs.drop_last());
    }
}

/// Observed counts are one per destination: each is at most the number of
/// identifiers routed so far.
pub proof fn lemma_counts_bounded(lists: Seq<Seq<Seq<u8>>>, ids: Seq<Seq<u8>>)
    ensures
        counts_after(lists, ids).len() == lists.len(),
        forall|i: int| 0 <= i < lists.len()
            ==> 0 <= #[trigger] counts_after(lists, ids)[i] <= ids.len(),
    decreases ids.len(),
{
    if ids.len() > 0 {
        lemma_counts_bounded(lists, ids.drop_last());
    }
}

/// No more deliveries than destinations, per identifier.
pub proof fn lemma_assigned_bounded(lists: Seq<Seq<Seq<u8>>>, ids: Seq<Seq<u8>>)
    ensures
        0 <= assigned_after(lists, ids) <= ids.len() * lists.len(),
    decreases ids.len(),
{
    if ids.len() > 0 {
        lemma_assigned_bounded(lists, ids.drop_last());
        lemma_dests_of(lists, ids.last());
        assert((ids.len() - 1) * lists.len() + lists.len() == ids.len() * lists.len())
            by (nonlinear_arith);
    }
}

/// The totals reported by a successful run: how many records the input held,
/// and how many deliveries were made to the destinations in all.
#[derive(Debug)]
pub struct Summary {
    pub total_records: usize,
    pub extracted_records: usize,
}

/// At least one destination observed a different number of records than its
/// name list expected; both full count vectors are reported.
#[derive(Debug)]
pub struct CountMismatch {
    pub expected: Vec<usize>,
    pub observed: Vec<usize>,
}

/// The number of name lists and of output targets differ.
#[derive(Debug)]
pub struct ConfigMismatch {
    pub n_lists: usize,
    pub n_outputs: usize,
}

/// Each name list is paired with the output target of the same rank, so the
/// two orderings must have equal length before any processing begins.
pub fn check_list_output_counts(n_lists: usize, n_outputs: usize) -> (r: Result<
    (),
    ConfigMismatch,
>)
    ensures
        r is Ok <==> n_lists == n_outputs,
        r is Err ==> r->Err_0.n_lists == n_lists && r->Err_0.n_outputs == n_outputs,
{
    if n_lists == n_outputs {
        Ok(())
    } else {
        Err(ConfigMismatch { n_lists, n_outputs })
    }
}

/// The single-pass router: owns the name index and the observed counts, and
/// routes one identifier at a time. The ghost `processed` field records the
/// identifiers routed so far; the observed counts are proved to equal the
/// counts the whole history induces.
pub struct Demuxer {
    pub index: NameIndex,
    pub observed: Vec<usize>,
    pub total: usize,
    pub assigned: usize,
    pub processed: Ghost<Seq<Seq<u8>>>,
}

impl Demuxer {
    /// The name-list configuration this router was built from.
    pub open spec fn lists(self) -> Seq<Seq<Seq<u8>>> {
        self.index.lists@
    }

    pub open spec fn wf(self) -> bool {
        &&& self.index.wf()
        &&& self.observed@.len() == self.lists().len()
        &&& self.observed@.map_values(|c: usize| c as int)
            == counts_after(self.lists(), self.processed@)
        &&& self.total as int == self.processed@.len()
        &&& self.assigned as int == assigned_after(self.lists(), self.processed@)
    }

    /// A fresh router: nothing routed, every observed count zero.
    pub fn new(index: NameIndex) -> (d: Demuxer)
        requires
            index.wf(),
        ensures
            d.wf(),
            d.index == index,
            d.processed@ == Seq::<Seq<u8>>::empty(),
            d.total == 0,
            d.assigned == 0,
    {
        let n = index.num_destinations();
        let mut observed: Vec<usize> = Vec::new();
        while observed.len() < n
            invariant
                observed@.len() <= n,
                forall|p: int| 0 <= p < observed@.len() ==> #[trigger] observed@[p] == 0usize,
            decreases n - observed@.len(),
        {
            observed.push(0);
        }
        proof {
            assert(observed@.map_values(|c: usize| c as int)
                =~= counts_after(index.lists@, Seq::<Seq<u8>>::empty()));
        }
        Demuxer { index, observed, total: 0, assigned: 0, processed: Ghost(Seq::empty()) }
    }

    /// Routes one record identifier: returns the destinations owed a copy of
    /// the record, in ascending order, bumping each one's observed count and
    /// the running totals.
    pub fn step(&mut self, id: &Vec<u8>) -> (dests: Vec<usize>)
        requires
            old(self).wf(),
            old(self).total < usize::MAX,
            old(self).assigned + old(self).lists().len() <= usize::MAX,
        ensures
            final(self).wf(),
            final(self).index == old(self).index,
            final(self).processed@ == old(self).processed@.push(id@),
            final(self).total == old(self).total + 1,
            final(self).assigned == old(self).assigned + dests@.len(),
            dests@.map_values(|d: usize| d as int) == dests_of(old(self).lists(), id@),
            forall|p: int| 0 <= p < dests@.len()
                ==> (#[trigger] dests@[p]) < old(self).observed@.len(),
    {
        let dests = self.index.lookup(id);
        let ghost lists = self.lists();
        let ghost dseq = dests@.map_values(|d: usize| d as int);
        let ghost obs0 = self.observed@;
        proof {
            lemma_dests_of(lists, id@);
            lemma_counts_bounded(lists, self.processed@);
        }
        let mut k: usize = 0;
        while k < dests.len()
            invariant
                self.index == old(self).index,
                self.total == old(self).total,
                self.assigned == old(self).assigned,
                self.processed == old(self).processed,
                old(self).wf(),
                old(self).total < usize::MAX,
                obs0 == old(self).observed@,
                dseq == dests_of(lists, id@),
                lists == self.lists(),
                dseq == dests@.map_values(|d: usize| d as int),
                forall|p: int| 0 <= p < dseq.len() ==> 0 <= #[trigger] dseq[p] < lists.len(),
                forall|p: int, q: int| 0 <= p < q < dseq.len() ==> dseq[p] < dseq[q],
                forall|i: int| 0 <= i < lists.len()
                    ==> 0 <= #[trigger] counts_after(lists, old(self).processed@)[i]
                        <= old(self).processed@.len(),
                k <= dests@.len(),
                self.observed@.len() == obs0.len(),
                forall|t: int| 0 <= t < self.observed@.len()
                    ==> (#[trigger] self.observed@[t]) as int
                        == obs0[t] + if dseq.take(k as int).contains(t) { 1int } else { 0int },
            decreases dests@.len() - k,
        {
            let d = dests[k];
            proof {
                assert(dseq[k as int] == d as int);
                assert(!dseq.take(k as int).contains(d as int)) by {
                    if dseq.take(k as int).contains(d as int) {
                        let p = choose|p: int|
                            0 <= p < k && dseq.take(k as int)[p] == d as int;
                        assert(dseq[p] < dseq[k as int]);
                    }
                }
                assert(self.observed@[d as int] as int == obs0[d as int]);
                assert(obs0[d as int] as int == counts_after(lists, old(self).processed@)[d as int]);
            }
            let c = self.observed[d];
            let ghost obs_pre = self.observed@;
            let slot = &mut self.observed[d];
            *slot = c + 1;
            proof {
                assert(self.observed@ == obs_pre.update(d as int, (c + 1) as usize));
                assert(dseq.take(k as int + 1) =~= dseq.take(k as int).push(dseq[k as int]));
                assert forall|t: int| 0 <= t < self.observed@.len()
                    implies (#[trigger] self.observed@[t]) as int
                        == obs0[t] + if dseq.take(k as int + 1).contains(t) { 1int } else { 0int } by {
                    if t == d as int {
                        assert(dseq.take(k as int + 1).contains(t));
                    } else {
                        assert(self.observed@[t] == obs_pre[t]);
                        assert(dseq.take(k as int + 1).contains(t)
                            == dseq.take(k as int).contains(t));
                    }
                }
            }
            k = k + 1;
        }
        let n_dests = dests.len();
        proof {
            assert(dseq.len() <= lists.len());
        }
        self.total = self.total + 1;
        self.assigned = self.assigned + n_dests;
        proof {
            self.processed@ = old(self).processed@.push(id@);
        }
        proof {
            let p1 = old(self).processed@.push(id@);
            assert(p1.drop_last() =~= old(self).processed@);
            assert(p1.last() == id@);
            assert(counts_after(lists, p1)
                == bump(counts_after(lists, old(self).processed@), dests_of(lists, id@)));
            assert(dseq.take(dseq.len() as int) =~= dseq);
            assert(self.observed@.map_values(|c: usize| c as int)
                =~= counts_after(lists, p1));
            assert(assigned_after(lists, p1)
                == assigned_after(lists, old(self).processed@) + dseq.len());
            assert forall|p: int| 0 <= p < dests@.len()
                implies (#[trigger] dests@[p]) < old(self).observed@.len() by {
                assert(dseq[p] == dests@[p] as int);
            }
        }
        dests
    }

    /// End-of-run reconciliation: succeeds, with the totals, exactly when
    /// every destination observed as many records as its name list expected;
    /// otherwise both count vectors are reported in full.
    pub fn validate(&self) -> (r: Result<Summary, CountMismatch>)
        requires
            self.wf(),
        ensures
            r is Ok <==> self.observed@ == self.index.expected@,
            r is Ok ==> r->Ok_0.total_records == self.total
                && r->Ok_0.extracted_records == self.assigned,
            r is Err ==> r->Err_0.expected@ == self.index.expected@
                && r->Err_0.observed@ == self.observed@,
    {
        let n = self.index.expected.len();
        let mut k: usize = 0;
        while k < n
            invariant
                self.wf(),
                n == self.index.expected@.len(),
                k <= n,
                forall|p: int| 0 <= p < k
                    ==> #[trigger] self.observed@[p] == self.index.expected@[p],
            decreases n - k,
        {
            if self.observed[k] != self.index.expected[k] {
                return Err(CountMismatch {
                    expected: copy_usizes(&self.index.expected),
                    observed: copy_usizes(&self.observed),
                });
            }
            k = k + 1;
        }
        proof {
            assert(self.observed@ =~= self.index.expected@);
        }
        Ok(Summary { total_records: self.total, extracted_records: self.assigned })
    }
}

/// The engine: drives one forward pass over a batch of records, delivering
/// each matched record's encoding to every destination that requested its
/// identifier, in ascending destination order, then reconciles the counts.
pub fn run_demux(index: NameIndex, records: &Vec<SeqRecord>) -> (r: Result<
    (Vec<Vec<u8>>, Summary),
    CountMismatch,
>)
    requires
        index.wf(),
        records@.len() * index.lists@.len() <= usize::MAX,
    ensures
        r is Ok <==> counts_after(index.lists@, rec_ids(records@))
            == expected_counts(index.lists@),
        r is Ok ==> {
            let outs = r->Ok_0.0;
            let s = r->Ok_0.1;
            &&& outs@.len() == index.lists@.len()
            &&& forall|i: int| 0 <= i < outs@.len()
                ==> (#[trigger] outs@[i])@ == outputs_after(index.lists@, records@)[i]
            &&& s.total_records == records@.len()
            &&& s.extracted_records as int == assigned_after(index.lists@, rec_ids(records@))
        },
        r is Err ==> r->Err_0.expected@.map_values(|c: usize| c as int)
            == expected_counts(index.lists@)
            && r->Err_0.observed@.map_values(|c: usize| c as int)
                == counts_after(index.lists@, rec_ids(records@)),
{
    let ghost lists = index.lists@;
    let n = index.num_destinations();
    let mut demux = Demuxer::new(index);
    let mut outs: Vec<Vec<u8>> = Vec::new();
    while outs.len() < n
        invariant
            outs@.len() <= n,
            forall|p: int| 0 <= p < outs@.len()
                ==> (#[trigger] outs@[p])@ == Seq::<u8>::empty(),
        decreases n - outs@.len(),
    {
        outs.push(Vec::new());
    }
    proof {
        assert(records@.take(0) =~= Seq::<SeqRecord>::empty());
        assert(rec_ids(records@.take(0)) =~= Seq::<Seq<u8>>::empty());
        lemma_outputs_len(lists, records@.take(0));
    }
    let mut t: usize = 0;
    while t < records.len()
        invariant
            demux.wf(),
            demux.index == index,
            index.wf(),
            lists == index.lists@,
            n as int == lists.len(),
            records@.len() * lists.len() <= usize::MAX,
            t <= records@.len(),
            demux.processed@ == rec_ids(records@.take(t as int)),
            demux.total == t,
            outs@.len() == n,
            forall|i: int| 0 <= i < outs@.len()
                ==> (#[trigger] outs@[i])@ == outputs_after(lists, records@.take(t as int))[i],
        decreases records@.len() - t,
    {
        let rec = &records[t];
        let id = rec.ident();
        proof {
            lemma_assigned_bounded(lists, demux.processed@);
            assert(rec_ids(records@.take(t as int)).len() == t as int);
            let tt = t as int;
            let rl = records@.len() as int;
            let ll = lists.len() as int;
            assert(tt * ll + ll <= rl * ll) by (nonlinear_arith)
                requires
                    tt < rl,
                    ll >= 0,
            ;
        }
        let dests = demux.step(&id);
        let ghost dseq = dests@.map_values(|d: usize| d as int);
        let ghost bufs0 = outs@;
        let ghost enc = rec.encoding();
        proof {
            lemma_dests_of(lists, rec.ident_view());
        }
        let mut k: usize = 0;
        while k < dests.len()
            invariant
                k <= dests@.len(),
                outs@.len() == bufs0.len(),
                dseq == dests@.map_values(|d: usize| d as int),
                dseq == dests_of(lists, rec.ident_view()),
                enc == rec.encoding(),
                forall|p: int| 0 <= p < dseq.len() ==> 0 <= #[trigger] dseq[p] < bufs0.len(),
                forall|p: int, q: int| 0 <= p < q < dseq.len() ==> dseq[p] < dseq[q],
                forall|i: int| 0 <= i < outs@.len()
                    ==> (#[trigger] outs@[i])@ == if dseq.take(k as int).contains(i) {
                        bufs0[i]@ + enc
                    } else {
                        bufs0[i]@
                    },
            decreases dests@.len() - k,
        {
            let d = dests[k];
            proof {
                assert(dseq[k as int] == d as int);
                assert(!dseq.take(k as int).contains(d as int)) by {
                    if dseq.take(k as int).contains(d as int) {
                        let p = choose|p: int|
                            0 <= p < k && dseq.take(k as int)[p] == d as int;
                        assert(dseq[p] < dseq[k as int]);
                    }
                }
            }
            let ghost outs_pre = outs@;
            rec.append_encoded(&mut outs[d]);
            proof {
                assert(dseq.take(k as int + 1) =~= dseq.take(k as int).push(dseq[k as int]));
                assert forall|i: int| 0 <= i < outs@.len()
                    implies (#[trigger] outs@[i])@ == if dseq.take(k as int + 1).contains(i) {
                        bufs0[i]@ + enc
                    } else {
                        bufs0[i]@
                    } by {
                    if i == d as int {
                        assert(dseq.take(k as int + 1).contains(i));
                        assert(outs_pre[i]@ == bufs0[i]@);
                    } else {
                        assert(outs@[i] == outs_pre[i]);
                        assert(dseq.take(k as int + 1).contains(i)
                            == dseq.take(k as int).contains(i));
                    }
                }
            }
            k = k + 1;
        }
        proof {
            let taken = records@.take(t as int);
            let taken1 = records@.take(t as int + 1);
            lemma_outputs_len(lists, taken);
            lemma_outputs_len(lists, taken1);
            assert(taken1 =~= taken.push(records@[t as int]));
            assert(taken1.drop_last() =~= taken);
            assert(taken1.last() == records@[t as int]);
            assert(outputs_after(lists, taken1)
                == append_at(outputs_after(lists, taken), dests_of(lists, rec.ident_view()),
                    rec.encoding()));
            assert(dseq.take(dseq.len() as int) =~= dseq);
            assert forall|i: int| 0 <= i < outs@.len()
                implies (#[trigger] outs@[i])@ == outputs_after(lists, taken1)[i] by {
                assert(outs@[i]@ == if dseq.contains(i) {
                    bufs0[i]@ + enc
                } else {
                    bufs0[i]@
                });
            }
            assert(rec_ids(taken1) =~= rec_ids(taken).push(records@[t as int].ident_view()));
        }
        t = t + 1;
    }
    proof {
        assert(records@.take(records@.len() as int) =~= records@);
    }
    proof {
        let cnts = counts_after(lists, rec_ids(records@));
        assert(demux.observed@.map_values(|c: usize| c as int) == cnts);
        assert(demux.index.expected@.map_values(|c: usize| c as int)
            =~= expected_counts(lists));
        if demux.observed@ == demux.index.expected@ {
            assert(cnts =~= expected_counts(lists));
        }
        if cnts == expected_counts(lists) {
            assert forall|i: int| 0 <= i < demux.observed@.len()
                implies #[trigger] demux.observed@[i] == demux.index.expected@[i] by {
                assert(demux.observed@[i] as int == cnts[i]);
                assert(demux.index.expected@[i] as int == expected_counts(lists)[i]);
            }
            assert(demux.observed@ =~= demux.index.expected@);
        }
    }
    match demux.validate() {
        Ok(s) => Ok((outs, s)),
        Err(m) => Err(m),
    }
}

/// The number of occurrences of `x` among `ids`.
pub open spec fn count_occ(ids: Seq<Seq<u8>>, x: Seq<u8>) -> int
    decreases ids.len(),
{
    if ids.len() == 0 {
        0
    } else {
        count_occ(ids.drop_last(), x) + if ids.last() == x {
            1int
        } else {
            0int
        }
    }
}

/// How many of `ids`, with multiplicity, one list requests.
spec fn obs_one(list: Seq<Seq<u8>>, ids: Seq<Seq<u8>>) -> int
    decreases ids.len(),
{
    if ids.len() == 0 {
        0
    } else {
        obs_one(list, ids.drop_last()) + if list_requests(list, ids.last()) {
            1int
        } else {
            0int
        }
    }
}

/// The sum, over `names`, of each name's occurrence count among `ids`.
spec fn sum_occ(names: Seq<Seq<u8>>, ids: Seq<Seq<u8>>) -> int
    decreases names.len(),
{
    if names.len() == 0 {
        0
    } else {
        sum_occ(names.drop_last(), ids) + count_occ(ids, names.last())
    }
}

proof fn lemma_counts_pointwise(lists: Seq<Seq<Seq<u8>>>, ids: Seq<Seq<u8>>, i: int)
    requires
        0 <= i < lists.len(),
    ensures
        counts_after(lists, ids)[i] == obs_one(lists[i], ids),
    decreases ids.len(),
{
    lemma_counts_bounded(lists, ids);
    if ids.len() > 0 {
        lemma_counts_pointwise(lists, ids.drop_last(), i);
        lemma_counts_bounded(lists, ids.drop_last());
        lemma_dests_of(lists, ids.last());
    }
}

proof fn lemma_sum_occ_empty(names: Seq<Seq<u8>>)
    ensures
        sum_occ(names, Seq::<Seq<u8>>::empty()) == 0,
    decreases names.len(),
{
    if names.len() > 0 {
        lemma_sum_occ_empty(names.drop_last());
    }
}

proof fn lemma_sum_occ_push(names: Seq<Seq<u8>>, ids: Seq<Seq<u8>>, x: Seq<u8>)
    ensures
        sum_occ(names, ids.push(x)) == sum_occ(names, ids) + count_occ(names, x),
    decreases names.len(),
{
    if names.len() > 0 {
        lemma_sum_occ_push(names.drop_last(), ids, x);
        assert(ids.push(x).drop_last() =~= ids);
        assert(ids.push(x).last() == x);
    }
}

proof fn lemma_distinct_count(names: Seq<Seq<u8>>, x: Seq<u8>)
    requires
        forall|p: int, q: int| 0 <= p < q < names.len() ==> names[p] != names[q],
    ensures
        count_occ(names, x) == if names.contains(x) {
            1int
        } else {
            0int
        },
    decreases names.len(),
{
    if names.len() == 0 {
        assert(!names.contains(x));
    } else {
        let dl = names.drop_last();
        lemma_distinct_count(dl, x);
        if names.last() == x {
            if dl.contains(x) {
                let p = choose|p: int| 0 <= p < dl.len() && dl[p] == x;
                assert(names[p] == names[names.len() - 1]);
            }
            assert(names[names.len() - 1] == x);
            assert(names.contains(x));
        } else {
            if dl.contains(x) {
                let p = choose|p: int| 0 <= p < dl.len() && dl[p] == x;
                assert(names[p] == x);
                assert(names.contains(x));
            }
            if names.contains(x) {
                let p = choose|p: int| 0 <= p < names.len() && names[p] == x;
                assert(p < names.len() - 1);
                assert(dl[p] == x);
                assert(dl.contains(x));
            }
        }
    }
}

proof fn lemma_obs_eq_sum(list: Seq<Seq<u8>>, ids: Seq<Seq<u8>>)
    requires
        !has_duplicate(list),
    ensures
        obs_one(list, ids) == sum_occ(nonblank(list), ids),
    decreases ids.len(),
{
    if ids.len() == 0 {
        lemma_sum_occ_empty(nonblank(list));
        assert(ids =~= Seq::<Seq<u8>>::empty());
    } else {
        let dl = ids.drop_last();
        let x = ids.last();
        lemma_obs_eq_sum(list, dl);
        assert(dl.push(x) =~= ids);
        lemma_sum_occ_push(nonblank(list), dl, x);
        assert forall|p: int, q: int| 0 <= p < q < nonblank(list).len()
            implies nonblank(list)[p] != nonblank(list)[q] by {
        }
        lemma_distinct_count(nonblank(list), x);
        lemma_nonblank_contains(list, x);
    }
}

proof fn lemma_sum_all_ones(names: Seq<Seq<u8>>, ids: Seq<Seq<u8>>)
    requires
        forall|p: int| 0 <= p < names.len() ==> count_occ(ids, #[trigger] names[p]) == 1,
    ensures
        sum_occ(names, ids) == names.len(),
    decreases names.len(),
{
    if names.len() > 0 {
        lemma_sum_all_ones(names.drop_last(), ids);
    }
}

/// For name lists with unique entries, an input containing every listed
/// identifier exactly once reconciles: every destination observes exactly
/// its expected count, so the end-of-run validation succeeds.
pub proof fn lemma_unique_names_reconcile(lists: Seq<Seq<Seq<u8>>>, ids: Seq<Seq<u8>>)
    requires
        lists_valid(lists),
        forall|t: int, id: Seq<u8>|
            0 <= t < lists.len() && #[trigger] list_requests(lists[t], id)
                ==> count_occ(ids, id) == 1,
    ensures
        counts_after(lists, ids) == expected_counts(lists),
{
    lemma_counts_bounded(lists, ids);
    assert forall|i: int| 0 <= i < lists.len()
        implies counts_after(lists, ids)[i] == expected_counts(lists)[i] by {
        lemma_counts_pointwise(lists, ids, i);
        lemma_obs_eq_sum(lists[i], ids);
        assert forall|p: int| 0 <= p < nonblank(lists[i]).len()
            implies count_occ(ids, #[trigger] nonblank(lists[i])[p]) == 1 by {
            let name = nonblank(lists[i])[p];
            assert(nonblank(lists[i]).contains(name));
            lemma_nonblank_contains(lists[i], name);
            assert(list_requests(lists[i], name));
        }
        lemma_sum_all_ones(nonblank(lists[i]), ids);
    }
    assert(counts_after(lists, ids) =~= expected_counts(lists));
}

/// Fan-out: an identifier named by two different lists routes one record to
/// both destinations, delivering its encoding to each exactly once and
/// bumping both observed counts by exactly one.
pub proof fn lemma_fan_out(lists: Seq<Seq<Seq<u8>>>, rec: SeqRecord, i: int, j: int)
    requires
        0 <= i < lists.len(),
        0 <= j < lists.len(),
        i != j,
        list_requests(lists[i], rec.ident_view()),
        list_requests(lists[j], rec.ident_view()),
    ensures
        dests_of(lists, rec.ident_view()).contains(i),
        dests_of(lists, rec.ident_view()).contains(j),
        outputs_after(lists, seq![rec])[i] == rec.encoding(),
        outputs_after(lists, seq![rec])[j] == rec.encoding(),
        counts_after(lists, rec_ids(seq![rec]))[i] == 1,
        counts_after(lists, rec_ids(seq![rec]))[j] == 1,
{
    lemma_dests_of(lists, rec.ident_view());
    let s1 = seq![rec];
    assert(s1.drop_last() =~= Seq::<SeqRecord>::empty());
    assert(s1.last() == rec);
    lemma_outputs_len(lists, Seq::<SeqRecord>::empty());
    assert(Seq::<u8>::empty() + rec.encoding() =~= rec.encoding());
    let ids1 = rec_ids(s1);
    assert(ids1.len() == 1);
    assert(ids1.last() == rec.ident_view());
    assert(ids1.drop_last() =~= Seq::<Seq<u8>>::empty());
    lemma_counts_bounded(lists, ids1);
    assert(counts_after(lists, ids1) == bump(
        counts_after(lists, Seq::<Seq<u8>>::empty()),
        dests_of(lists, rec.ident_view()),
    ));
    assert(counts_after(lists, Seq::<Seq<u8>>::empty())[i] == 0);
    assert(counts_after(lists, Seq::<Seq<u8>>::empty())[j] == 0);
}

/// The contents of one output file after a run: truncate mode replaces the
/// prior contents, append mode extends them with what the run produced.
pub open spec fn sink_contents(append: bool, prior: Seq<u8>, produced: Seq<u8>) -> Seq<u8> {
    if append {
        prior + produced
    } else {
        produced
    }
}

/// Truncate mode is idempotent: two runs of the same extraction leave each
/// destination's file byte-identical, whatever either run found in it.
pub proof fn lemma_truncate_idempotent(
    lists: Seq<Seq<Seq<u8>>>,
    recs: Seq<SeqRecord>,
    prior1: Seq<u8>,
    prior2: Seq<u8>,
    i: int,
)
    ensures
        sink_contents(false, prior1, outputs_after(lists, recs)[i])
            == sink_contents(false, prior2, outputs_after(lists, recs)[i]),
{
}

/// Append mode accumulates: running the same extraction twice, starting from
/// a file that did not yet exist, leaves the single-run output twice, in order.
pub proof fn lemma_append_accumulates(lists: Seq<Seq<Seq<u8>>>, recs: Seq<SeqRecord>, i: int)
    ensures
        sink_contents(
            true,
            sink_contents(true, Seq::<u8>::empty(), outputs_after(lists, recs)[i]),
            outputs_after(lists, recs)[i],
        ) == outputs_after(lists, recs)[i] + outputs_after(lists, recs)[i],
{
    assert(Seq::<u8>::empty() + outputs_after(lists, recs)[i]
        =~= outputs_after(lists, recs)[i]);
}

} // verus!
