use vstd::prelude::*;

verus! {

/// What scanning one directory entry gave.
pub enum EntryOutcome {
    /// The entry could not be listed or examined.
    Unavailable,
    /// The entry is not a regular file; it is never fingerprinted.
    NotRegularFile,
    /// A regular file whose content could not be read.
    Unreadable,
    /// A regular file and the fingerprint of its content.
    Fingerprinted(String),
}

/// A fingerprinted regular file: its fingerprint and its position among the
/// directory's entries, in enumeration order.
pub struct FileRecord {
    pub fingerprint: String,
    pub entry: usize,
}

/// The mathematical content of a `FileRecord`.
pub struct RecordModel {
    pub fingerprint: Seq<char>,
    pub entry: usize,
}

impl View for FileRecord {
    type V = RecordModel;

    open spec fn view(&self) -> RecordModel {
        RecordModel { fingerprint: self.fingerprint@, entry: self.entry }
    }
}

/// One planned removal: the entry `duplicate` has the same fingerprint as the
/// entry `survivor`, which is kept.
#[derive(Clone, Copy, Debug, PartialEq, Eq, Structural)]
pub struct Deletion {
    pub survivor: usize,
    pub duplicate: usize,
}

/// The models of `records`, in order.
pub open spec fn models(records: Seq<FileRecord>) -> Seq<RecordModel> {
    records.map_values(|r: FileRecord| r@)
}

/// The records of the fingerprinted entries, in enumeration order.
pub open spec fn records_of(outcomes: Seq<EntryOutcome>) -> Seq<RecordModel>
    decreases outcomes.len(),
{
    if outcomes.len() == 0 {
        seq![]
    } else {
        let prev = records_of(outcomes.drop_last());
        match outcomes.last() {
            EntryOutcome::Fingerprinted(f) => prev.push(
                RecordModel { fingerprint: f@, entry: (outcomes.len() - 1) as usize },
            ),
            _ => prev,
        }
    }
}

/// The first position at or after `k` whose record has fingerprint `fp`, or
/// the number of records when there is none.
pub open spec fn first_with(recs: Seq<RecordModel>, fp: Seq<char>, k: int) -> int
    decreases recs.len() - k,
{
    if k >= recs.len() {
        recs.len() as int
    } else if recs[k].fingerprint == fp {
        k
    } else {
        first_with(recs, fp, k + 1)
    }
}

/// The position of the record kept from the class of record `i`: the first
/// record with the same fingerprint.
pub open spec fn survivor_pos(recs: Seq<RecordModel>, i: int) -> int {
    first_with(recs, recs[i].fingerprint, 0)
}

/// Whether record `i` is removed: an earlier record has its fingerprint.
pub open spec fn is_removed(recs: Seq<RecordModel>, i: int) -> bool {
    survivor_pos(recs, i) < i
}

/// The deletion planned for record `i`.
pub open spec fn deletion_for(recs: Seq<RecordModel>, i: int) -> Deletion {
    Deletion { survivor: recs[survivor_pos(recs, i)].entry, duplicate: recs[i].entry }
}

/// The deletions planned for the first `n` records, in their order.
pub open spec fn plan_upto(recs: Seq<RecordModel>, n: int) -> Seq<Deletion>
    decreases n,
{
    if n <= 0 {
        seq![]
    } else if is_removed(recs, n - 1) {
        plan_upto(recs, n - 1).push(deletion_for(recs, n - 1))
    } else {
        plan_upto(recs, n - 1)
    }
}

/// The deletions planned for `recs`: one for each record that has an earlier
/// record with the same fingerprint, naming that earliest one as survivor.
pub open spec fn plan_of(recs: Seq<RecordModel>) -> Seq<Deletion> {
    plan_upto(recs, recs.len() as int)
}

proof fn lemma_first_with(recs: Seq<RecordModel>, fp: Seq<char>, k: int, j: int)
    requires
        0 <= k <= j < recs.len(),
        recs[j].fingerprint == fp,
    ensures
        k <= first_with(recs, fp, k) <= j,
        recs[first_with(recs, fp, k)].fingerprint == fp,
        forall|m: int| k <= m < first_with(recs, fp, k) ==> recs[m].fingerprint != fp,
    decreases j - k,
{
    if recs[k].fingerprint != fp {
        lemma_first_with(recs, fp, k + 1, j);
    }
}

/// Collects the records of the fingerprinted entries, in enumeration order;
/// every other entry takes no further part.
pub fn collect_records(outcomes: &Vec<EntryOutcome>) -> (r: Vec<FileRecord>)
    ensures
        models(r@) == records_of(outcomes@),
{
    let mut r: Vec<FileRecord> = Vec::new();
    let mut i: usize = 0;
    while i < outcomes.len()
        invariant
            i <= outcomes@.len(),
            models(r@) == records_of(outcomes@.subrange(0, i as int)),
        decreases outcomes@.len() - i,
    {
        let ghost prefix = outcomes@.subrange(0, i as int + 1);
        assert(prefix.drop_last() =~= outcomes@.subrange(0, i as int));
        match &outcomes[i] {
            EntryOutcome::Fingerprinted(f) => {
                r.push(FileRecord { fingerprint: f.clone(), entry: i });
                assert(models(r@) =~= records_of(prefix));
            },
            _ => {},
        }
        i = i + 1;
    }
    assert(outcomes@.subrange(0, outcomes@.len() as int) =~= outcomes@);
    r
}

/// Plans the deletions for `records`: each record whose fingerprint an
/// earlier record already has is deleted, and that earliest record survives.
pub fn plan_deletions(records: &Vec<FileRecord>) -> (r: Vec<Deletion>)
    ensures
        r@ == plan_of(models(records@)),
{
    let ghost recs = models(records@);
    let mut r: Vec<Deletion> = Vec::new();
    // positions of the first record of each class met so far
    let mut leaders: Vec<usize> = Vec::new();
    let mut i: usize = 0;
    while i < records.len()
        invariant
            recs == models(records@),
            i <= records@.len(),
            r@ == plan_upto(recs, i as int),
            forall|k: int|
                0 <= k < leaders@.len() ==> leaders@[k] < i && survivor_pos(recs, leaders@[k] as int)
                    == leaders@[k],
            forall|j: int| 0 <= j < i && survivor_pos(recs, j) == j ==> leaders@.contains(j as usize),
        decreases records@.len() - i,
    {
        let mut k: usize = 0;
        let mut found = false;
        while k < leaders.len() && !found
            invariant
                recs == models(records@),
                i < records@.len(),
                k <= leaders@.len(),
                forall|m: int| 0 <= m < leaders@.len() ==> leaders@[m] < i,
                !found ==> forall|m: int|
                    0 <= m < k ==> recs[leaders@[m] as int].fingerprint != recs[i as int].fingerprint,
                found ==> k < leaders@.len() && recs[leaders@[k as int] as int].fingerprint
                    == recs[i as int].fingerprint,
            decreases leaders@.len() - k + (if found { 0int } else { 1int }),
        {
            if records[leaders[k]].fingerprint == records[i].fingerprint {
                found = true;
            } else {
                k = k + 1;
            }
        }
        proof {
            lemma_first_with(recs, recs[i as int].fingerprint, 0, i as int);
        }
        if found {
            let l = leaders[k];
            proof {
                lemma_first_with(recs, recs[l as int].fingerprint, 0, l as int);
                assert(survivor_pos(recs, i as int) == l);
            }
            r.push(Deletion { survivor: records[l].entry, duplicate: records[i].entry });
        } else {
            proof {
                let s = survivor_pos(recs, i as int);
                if s < i {
                    lemma_first_with(recs, recs[s].fingerprint, 0, s);
                    assert(survivor_pos(recs, s) == s);
                    assert(leaders@.contains(s as usize));
                    let m = choose|m: int| 0 <= m < leaders@.len() && leaders@[m] == s as usize;
                    assert(recs[leaders@[m] as int].fingerprint != recs[i as int].fingerprint);
                }
            }
            let ghost before = leaders@;
            leaders.push(i);
            proof {
                assert forall|j: int| 0 <= j <= i && survivor_pos(recs, j) == j implies leaders@.contains(
                    j as usize,
                ) by {
                    if j < i {
                        let m = choose|m: int| 0 <= m < before.len() && before[m] == j as usize;
                        assert(leaders@[m] == j as usize);
                    } else {
                        assert(leaders@[before.len() as int] == i);
                    }
                }
            }
        }
        i = i + 1;
    }
    r
}

/// Plans the deletions for a scanned directory, given the outcome of each
/// entry in enumeration order.
pub fn deletion_plan(outcomes: &Vec<EntryOutcome>) -> (r: Vec<Deletion>)
    ensures
        r@ == plan_for(outcomes@),
{
    let records = collect_records(outcomes);
    plan_deletions(&records)
}

/// The fingerprint of entry `e`, if it was fingerprinted.
pub open spec fn fingerprint_at(outcomes: Seq<EntryOutcome>, e: int) -> Option<Seq<char>> {
    match outcomes[e] {
        EntryOutcome::Fingerprinted(f) => Some(f@),
        _ => None,
    }
}

/// The deletions planned for a directory whose entries gave `outcomes`.
pub open spec fn plan_for(outcomes: Seq<EntryOutcome>) -> Seq<Deletion> {
    plan_of(records_of(outcomes))
}

/// Whether `plan` deletes entry `e`.
pub open spec fn deletes(plan: Seq<Deletion>, e: int) -> bool {
    exists|k: int| 0 <= k < plan.len() && plan[k].duplicate as int == e
}

/// The entries among the first `n` that `plan` does not delete, in order.
pub open spec fn kept_upto(outcomes: Seq<EntryOutcome>, plan: Seq<Deletion>, n: int) -> Seq<
    EntryOutcome,
>
    decreases n,
{
    if n <= 0 {
        seq![]
    } else if deletes(plan, n - 1) {
        kept_upto(outcomes, plan, n - 1)
    } else {
        kept_upto(outcomes, plan, n - 1).push(outcomes[n - 1])
    }
}

/// The directory's entries after its planned deletions, in their order.
pub open spec fn after_run(outcomes: Seq<EntryOutcome>) -> Seq<EntryOutcome> {
    kept_upto(outcomes, plan_for(outcomes), outcomes.len() as int)
}

proof fn lemma_records_of(outcomes: Seq<EntryOutcome>)
    requires
        outcomes.len() <= usize::MAX,
    ensures
        forall|i: int, j: int|
            0 <= i < j < records_of(outcomes).len() ==> records_of(outcomes)[i].entry
                < records_of(outcomes)[j].entry,
        forall|i: int|
            0 <= i < records_of(outcomes).len() ==> records_of(outcomes)[i].entry < outcomes.len()
                && fingerprint_at(outcomes, records_of(outcomes)[i].entry as int) == Some(
                records_of(outcomes)[i].fingerprint,
            ),
        forall|e: int|
            0 <= e < outcomes.len() && fingerprint_at(outcomes, e) is Some ==> exists|i: int|
                0 <= i < records_of(outcomes).len() && records_of(outcomes)[i].entry == e,
    decreases outcomes.len(),
{
    if outcomes.len() > 0 {
        let prev = outcomes.drop_last();
        lemma_records_of(prev);
        let rp = records_of(prev);
        let r = records_of(outcomes);
        assert forall|e: int| 0 <= e < prev.len() implies fingerprint_at(prev, e) == fingerprint_at(
            outcomes,
            e,
        ) by {
            assert(prev[e] == outcomes[e]);
        }
        let last = (outcomes.len() - 1) as int;
        assert forall|e: int|
            0 <= e < outcomes.len() && fingerprint_at(outcomes, e) is Some implies exists|i: int|
                0 <= i < r.len() && r[i].entry == e by {
            if e < last {
                let i = choose|i: int| 0 <= i < rp.len() && rp[i].entry == e;
                assert(r[i] == rp[i]);
            } else {
                assert(r[rp.len() as int].entry == e);
            }
        }
    }
}

proof fn lemma_plan_members(recs: Seq<RecordModel>, n: int)
    requires
        0 <= n <= recs.len(),
    ensures
        forall|d: Deletion|
            plan_upto(recs, n).contains(d) ==> exists|i: int|
                0 <= i < n && is_removed(recs, i) && d == deletion_for(recs, i),
        forall|i: int|
            0 <= i < n && is_removed(recs, i) ==> plan_upto(recs, n).contains(
                deletion_for(recs, i),
            ),
    decreases n,
{
    if n > 0 {
        lemma_plan_members(recs, n - 1);
        let prev = plan_upto(recs, n - 1);
        let cur = plan_upto(recs, n);
        if is_removed(recs, n - 1) {
            assert forall|d: Deletion| cur.contains(d) implies exists|i: int|
                0 <= i < n && is_removed(recs, i) && d == deletion_for(recs, i) by {
                let k = choose|k: int| 0 <= k < cur.len() && cur[k] == d;
                if k < prev.len() {
                    assert(prev[k] == d);
                    assert(prev.contains(d));
                } else {
                    assert(d == deletion_for(recs, n - 1));
                }
            }
            assert forall|i: int| 0 <= i < n && is_removed(recs, i) implies cur.contains(
                deletion_for(recs, i),
            ) by {
                if i < n - 1 {
                    let k = choose|k: int| 0 <= k < prev.len() && prev[k] == deletion_for(recs, i);
                    assert(cur[k] == prev[k]);
                } else {
                    assert(cur[prev.len() as int] == deletion_for(recs, i));
                }
            }
        }
    }
}

/// In every class of fingerprinted entries that share a fingerprint, exactly
/// one entry is kept, the first in enumeration order, and every other member
/// is deleted as a duplicate of it. Entries with identical content have
/// identical fingerprints, so they fall in one class.
pub proof fn lemma_one_survivor_per_class(outcomes: Seq<EntryOutcome>, fp: Seq<char>)
    requires
        outcomes.len() <= usize::MAX,
        exists|e: int| 0 <= e < outcomes.len() && fingerprint_at(outcomes, e) == Some(fp),
    ensures
        exists|s: int|
            0 <= s < outcomes.len() && fingerprint_at(outcomes, s) == Some(fp) && (forall|e: int|
                0 <= e < s ==> fingerprint_at(outcomes, e) != Some(fp)) && !deletes(
                plan_for(outcomes),
                s,
            ) && (forall|e: int|
                0 <= e < outcomes.len() && e != s && fingerprint_at(outcomes, e) == Some(fp)
                    ==> plan_for(outcomes).contains(
                    (Deletion { survivor: s as usize, duplicate: e as usize }),
                )),
{
    let recs = records_of(outcomes);
    let plan = plan_for(outcomes);
    lemma_records_of(outcomes);
    lemma_plan_members(recs, recs.len() as int);
    let e0 = choose|e: int| 0 <= e < outcomes.len() && fingerprint_at(outcomes, e) == Some(fp);
    let i0 = choose|i: int| 0 <= i < recs.len() && recs[i].entry == e0;
    lemma_first_with(recs, fp, 0, i0);
    let sr = first_with(recs, fp, 0);
    let s = recs[sr].entry as int;
    assert forall|e: int| 0 <= e < s implies fingerprint_at(outcomes, e) != Some(fp) by {
        if fingerprint_at(outcomes, e) == Some(fp) {
            let i = choose|i: int| 0 <= i < recs.len() && recs[i].entry == e;
            assert(recs[i].fingerprint == fp);
            if i >= sr {
                assert(i == sr || recs[sr].entry < recs[i].entry);
            }
        }
    }
    assert(!deletes(plan, s)) by {
        if deletes(plan, s) {
            let k = choose|k: int| 0 <= k < plan.len() && plan[k].duplicate as int == s;
            assert(plan.contains(plan[k]));
            let i = choose|i: int|
                0 <= i < recs.len() && is_removed(recs, i) && plan[k] == deletion_for(recs, i);
            if i != sr {
                assert(i < sr || i > sr);
            }
        }
    }
    assert forall|e: int|
        0 <= e < outcomes.len() && e != s && fingerprint_at(outcomes, e) == Some(fp) implies plan.contains(
        (Deletion { survivor: s as usize, duplicate: e as usize }),
    ) by {
        let i = choose|i: int| 0 <= i < recs.len() && recs[i].entry == e;
        lemma_first_with(recs, fp, 0, i);
        assert(is_removed(recs, i));
        assert(deletion_for(recs, i) == Deletion { survivor: s as usize, duplicate: e as usize });
    }
}

/// Where no two fingerprinted entries share a fingerprint (files with pairwise
/// distinct content), nothing is deleted.
pub proof fn lemma_distinct_fingerprints_keep_all(outcomes: Seq<EntryOutcome>)
    requires
        outcomes.len() <= usize::MAX,
        forall|e1: int, e2: int|
            0 <= e1 < outcomes.len() && 0 <= e2 < outcomes.len() && e1 != e2 && fingerprint_at(
                outcomes,
                e1,
            ) is Some ==> fingerprint_at(outcomes, e1) != fingerprint_at(outcomes, e2),
    ensures
        plan_for(outcomes) == Seq::<Deletion>::empty(),
{
    let recs = records_of(outcomes);
    let plan = plan_for(outcomes);
    lemma_records_of(outcomes);
    lemma_plan_members(recs, recs.len() as int);
    assert forall|i: int| 0 <= i < recs.len() implies !is_removed(recs, i) by {
        lemma_first_with(recs, recs[i].fingerprint, 0, i);
        let s = survivor_pos(recs, i);
        if s < i {
            assert(recs[s].entry < recs[i].entry);
        }
    }
    if plan.len() > 0 {
        assert(plan.contains(plan[0]));
    }
    assert(plan =~= Seq::<Deletion>::empty());
}

/// A fingerprinted entry that the plan keeps is the first of its class.
proof fn lemma_kept_is_first(outcomes: Seq<EntryOutcome>, e: int)
    requires
        outcomes.len() <= usize::MAX,
        0 <= e < outcomes.len(),
        fingerprint_at(outcomes, e) is Some,
        !deletes(plan_for(outcomes), e),
    ensures
        forall|e2: int| 0 <= e2 < e ==> fingerprint_at(outcomes, e2) != fingerprint_at(outcomes, e),
{
    let fp = fingerprint_at(outcomes, e)->0;
    let plan = plan_for(outcomes);
    lemma_one_survivor_per_class(outcomes, fp);
    let s = choose|s: int|
        0 <= s < outcomes.len() && fingerprint_at(outcomes, s) == Some(fp) && (forall|e: int|
            0 <= e < s ==> fingerprint_at(outcomes, e) != Some(fp)) && !deletes(plan, s) && (forall|
            e: int,
        |
            0 <= e < outcomes.len() && e != s && fingerprint_at(outcomes, e) == Some(fp)
                ==> plan.contains((Deletion { survivor: s as usize, duplicate: e as usize })));
    if e != s {
        let d = Deletion { survivor: s as usize, duplicate: e as usize };
        assert(plan.contains(d));
        let k = choose|k: int| 0 <= k < plan.len() && plan[k] == d;
        assert(deletes(plan, e));
    }
}

proof fn lemma_kept_upto(outcomes: Seq<EntryOutcome>, n: int)
    requires
        outcomes.len() <= usize::MAX,
        0 <= n <= outcomes.len(),
    ensures
        kept_upto(outcomes, plan_for(outcomes), n).len() <= n,
        forall|p: int|
            #![trigger kept_upto(outcomes, plan_for(outcomes), n)[p]]
            0 <= p < kept_upto(outcomes, plan_for(outcomes), n).len() ==> exists|idx: int|
                #![trigger outcomes[idx]]
                0 <= idx < n && kept_upto(outcomes, plan_for(outcomes), n)[p] == outcomes[idx]
                    && !deletes(plan_for(outcomes), idx),
        forall|p1: int, p2: int|
            0 <= p1 < kept_upto(outcomes, plan_for(outcomes), n).len() && 0 <= p2 < kept_upto(
                outcomes,
                plan_for(outcomes),
                n,
            ).len() && p1 != p2 && fingerprint_at(kept_upto(outcomes, plan_for(outcomes), n), p1)
                is Some ==> fingerprint_at(kept_upto(outcomes, plan_for(outcomes), n), p1)
                != fingerprint_at(kept_upto(outcomes, plan_for(outcomes), n), p2),
    decreases n,
{
    if n > 0 {
        let plan = plan_for(outcomes);
        lemma_kept_upto(outcomes, n - 1);
        let prev = kept_upto(outcomes, plan, n - 1);
        let cur = kept_upto(outcomes, plan, n);
        if !deletes(plan, n - 1) {
            let last = prev.len() as int;
            assert forall|p: int| #![trigger cur[p]] 0 <= p < cur.len() implies exists|idx: int|
                #![trigger outcomes[idx]]
                0 <= idx < n && cur[p] == outcomes[idx] && !deletes(plan, idx) by {
                if p < last {
                    assert(cur[p] == prev[p]);
                } else {
                    assert(cur[p] == outcomes[n - 1]);
                }
            }
            assert forall|p1: int, p2: int|
                0 <= p1 < cur.len() && 0 <= p2 < cur.len() && p1 != p2 && fingerprint_at(cur, p1)
                    is Some implies fingerprint_at(cur, p1) != fingerprint_at(cur, p2) by {
                assert(cur.len() == last + 1);
                if p1 < last && p2 < last {
                    assert(cur[p1] == prev[p1] && cur[p2] == prev[p2]);
                    assert(fingerprint_at(cur, p1) == fingerprint_at(prev, p1));
                    assert(fingerprint_at(cur, p2) == fingerprint_at(prev, p2));
                } else if fingerprint_at(cur, p1) == fingerprint_at(cur, p2) {
                    let p = if p1 < last { p1 } else { p2 };
                    assert(cur[p] == prev[p]);
                    let idx = choose|idx: int|
                        0 <= idx < n - 1 && prev[p] == outcomes[idx] && !deletes(plan, idx);
                    assert(cur[last] == outcomes[n - 1]);
                    assert(fingerprint_at(cur, last) == fingerprint_at(outcomes, n - 1));
                    assert(fingerprint_at(outcomes, n - 1) is Some);
                    lemma_kept_is_first(outcomes, n - 1);
                    assert(fingerprint_at(outcomes, idx) == fingerprint_at(cur, p));
                }
            }
        }
    }
}

/// Running again on what a run leaves is a no-op: no two entries that remain
/// share a fingerprint, so a second plan deletes nothing.
pub proof fn lemma_rerun_is_noop(outcomes: Seq<EntryOutcome>)
    requires
        outcomes.len() <= usize::MAX,
    ensures
        plan_for(after_run(outcomes)) == Seq::<Deletion>::empty(),
{
    lemma_kept_upto(outcomes, outcomes.len() as int);
    lemma_distinct_fingerprints_keep_all(after_run(outcomes));
}

/// An entry that was not fingerprinted (not a regular file, unavailable, or
/// unreadable) is neither deleted nor named as the survivor of any deletion.
pub proof fn lemma_unfingerprinted_entry_untouched(outcomes: Seq<EntryOutcome>, e: int)
    requires
        outcomes.len() <= usize::MAX,
        0 <= e < outcomes.len(),
        !(outcomes[e] is Fingerprinted),
    ensures
        forall|k: int|
            0 <= k < plan_for(outcomes).len() ==> plan_for(outcomes)[k].survivor as int != e
                && plan_for(outcomes)[k].duplicate as int != e,
{
    let recs = records_of(outcomes);
    let plan = plan_for(outcomes);
    lemma_records_of(outcomes);
    lemma_plan_members(recs, recs.len() as int);
    assert forall|k: int| 0 <= k < plan.len() implies plan[k].survivor as int != e
        && plan[k].duplicate as int != e by {
        assert(plan.contains(plan[k]));
        let i = choose|i: int|
            0 <= i < recs.len() && is_removed(recs, i) && plan[k] == deletion_for(recs, i);
        lemma_first_with(recs, recs[i].fingerprint, 0, i);
    }
}

} // verus!
