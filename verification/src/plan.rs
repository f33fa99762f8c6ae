//! Grouping by digest, the integrity check, survivor selection and the
//! reclaimable-space accounting.
use vstd::prelude::*;
use crate::order::{lex_le, lemma_lex_le_refl};
use crate::record::{FileRecord, RecordView, rec_le, rec_le_exec, rec_le_fn,
    lemma_rec_le_total_ordering};

verus! {

broadcast use vstd::seq_lib::group_to_multiset_ensures, vstd::multiset::group_multiset_axioms;

/// The views of a sequence of records.
pub open spec fn views_of(s: Seq<FileRecord>) -> Seq<RecordView> {
    s.map_values(|r: FileRecord| r@)
}

/// The digests occurring in `rs`, in order of first occurrence.
pub open spec fn distinct_digests(rs: Seq<RecordView>) -> Seq<Seq<char>>
    decreases rs.len(),
{
    if rs.len() == 0 {
        Seq::empty()
    } else {
        let prev = distinct_digests(rs.drop_last());
        if prev.contains(rs.last().digest) {
            prev
        } else {
            prev.push(rs.last().digest)
        }
    }
}

/// All records of `rs` sharing the digest `d`, in scan order.
pub open spec fn group_of(rs: Seq<RecordView>, d: Seq<char>) -> Seq<RecordView> {
    rs.filter(|r: RecordView| r.digest == d)
}

/// The records of `rs` grouped by digest: one group per distinct digest,
/// groups in order of the digest's first occurrence.
pub open spec fn group_seq(rs: Seq<RecordView>) -> Seq<Seq<RecordView>> {
    distinct_digests(rs).map_values(|d: Seq<char>| group_of(rs, d))
}

proof fn lemma_filter_push<A>(s: Seq<A>, pred: spec_fn(A) -> bool, x: A)
    ensures
        s.push(x).filter(pred) == (if pred(x) {
            s.filter(pred).push(x)
        } else {
            s.filter(pred)
        }),
{
    reveal(Seq::filter);
    assert(s.push(x).drop_last() =~= s);
    assert(s.push(x).last() == x);
}

proof fn lemma_filter_all_false<A>(s: Seq<A>, pred: spec_fn(A) -> bool)
    requires
        forall|i: int| 0 <= i < s.len() ==> !pred(#[trigger] s[i]),
    ensures
        s.filter(pred) == Seq::<A>::empty(),
    decreases s.len(),
{
    reveal(Seq::filter);
    if s.len() > 0 {
        assert(forall|i: int| 0 <= i < s.drop_last().len() ==> s.drop_last()[i] == s[i]);
        lemma_filter_all_false(s.drop_last(), pred);
    } else {
        assert(s =~= Seq::<A>::empty());
    }
}

proof fn lemma_filter_elements<A>(s: Seq<A>, pred: spec_fn(A) -> bool)
    ensures
        forall|x: A| s.filter(pred).contains(x) ==> s.contains(x),
    decreases s.len(),
{
    reveal(Seq::filter);
    if s.len() > 0 {
        lemma_filter_elements(s.drop_last(), pred);
        assert forall|x: A| s.filter(pred).contains(x) implies s.contains(x) by {
            let f = s.filter(pred);
            let fd = s.drop_last().filter(pred);
            let i = choose|i: int| 0 <= i < f.len() && f[i] == x;
            if pred(s.last()) && i == f.len() - 1 {
                assert(s[s.len() - 1] == x);
            } else {
                assert(f[i] == fd[i]);
                assert(fd.contains(x));
                assert(s.drop_last().contains(x));
                let k = choose|k: int| 0 <= k < s.drop_last().len() && s.drop_last()[k] == x;
                assert(s[k] == x);
            }
        }
    }
}

/// The list of distinct digests covers every record, indexes a nonempty
/// group each, and never repeats.
proof fn lemma_distinct_digests_props(rs: Seq<RecordView>)
    ensures
        forall|i: int| 0 <= i < rs.len() ==> distinct_digests(rs).contains(#[trigger] rs[i].digest),
        forall|k: int| #![trigger distinct_digests(rs)[k]]
            0 <= k < distinct_digests(rs).len() ==> exists|i: int|
                0 <= i < rs.len() && #[trigger] rs[i].digest == distinct_digests(rs)[k],
        forall|k: int, l: int|
            0 <= k < l < distinct_digests(rs).len() ==> distinct_digests(rs)[k]
                != distinct_digests(rs)[l],
    decreases rs.len(),
{
    if rs.len() > 0 {
        let prev = distinct_digests(rs.drop_last());
        let dd = distinct_digests(rs);
        lemma_distinct_digests_props(rs.drop_last());
        assert(forall|i: int|
            0 <= i < rs.len() - 1 ==> #[trigger] rs[i].digest == rs.drop_last()[i].digest);
        assert forall|i: int| 0 <= i < rs.len() implies dd.contains(#[trigger] rs[i].digest) by {
            if i < rs.len() - 1 {
                let k = choose|k: int| 0 <= k < prev.len() && prev[k] == rs[i].digest;
                assert(dd[k] == rs[i].digest);
            } else {
                if prev.contains(rs.last().digest) {
                    let k = choose|k: int| 0 <= k < prev.len() && prev[k] == rs.last().digest;
                    assert(dd[k] == rs[i].digest);
                } else {
                    assert(dd[dd.len() - 1] == rs[i].digest);
                }
            }
        }
        assert forall|k: int| #![trigger dd[k]] 0 <= k < dd.len() implies exists|i: int|
            0 <= i < rs.len() && #[trigger] rs[i].digest == dd[k] by {
            if k < prev.len() {
                let i = choose|i: int|
                    0 <= i < rs.drop_last().len() && #[trigger] rs.drop_last()[i].digest
                        == prev[k];
                assert(rs[i].digest == dd[k]);
            } else {
                assert(rs[rs.len() - 1].digest == dd[k]);
            }
        }
        assert forall|k: int, l: int| 0 <= k < l < dd.len() implies dd[k] != dd[l] by {
            if l < prev.len() {
                assert(prev[k] != prev[l]);
            } else if l == prev.len() && dd.len() > prev.len() {
                assert(!prev.contains(rs.last().digest));
                assert(prev[k] != dd[l]);
            }
        }
    }
}

/// Every group of `group_seq` is nonempty, holds exactly the records
/// bearing its digest, and its digest heads the distinct-digest list.
pub proof fn lemma_group_seq_shape(rs: Seq<RecordView>)
    ensures
        group_seq(rs).len() == distinct_digests(rs).len(),
        forall|k: int|
            0 <= k < group_seq(rs).len() ==> #[trigger] group_seq(rs)[k] == group_of(
                rs,
                distinct_digests(rs)[k],
            ),
        forall|k: int| 0 <= k < group_seq(rs).len() ==> #[trigger] group_seq(rs)[k].len() > 0,
        forall|k: int, m: int|
            0 <= k < group_seq(rs).len() && 0 <= m < group_seq(rs)[k].len()
                ==> #[trigger] group_seq(rs)[k][m].digest == distinct_digests(rs)[k],
        forall|k: int, l: int|
            0 <= k < l < group_seq(rs).len() ==> distinct_digests(rs)[k] != distinct_digests(
                rs,
            )[l],
{
    lemma_distinct_digests_props(rs);
    let dd = distinct_digests(rs);
    let gs = group_seq(rs);
    assert forall|k: int| 0 <= k < gs.len() implies #[trigger] gs[k].len() > 0 by {
        let i = choose|i: int| 0 <= i < rs.len() && #[trigger] rs[i].digest == dd[k];
        let pred = |r: RecordView| r.digest == dd[k];
        rs.lemma_filter_contains(pred, i);
        assert(gs[k] == rs.filter(pred));
    }
    assert forall|k: int, m: int|
        0 <= k < gs.len() && 0 <= m < gs[k].len() implies #[trigger] gs[k][m].digest == dd[k] by {
        let pred = |r: RecordView| r.digest == dd[k];
        rs.lemma_filter_pred(pred, m);
        assert(gs[k] == rs.filter(pred));
    }
}

/// Sorts a group of records under `rec_le`. Within one duplicate group
/// all digests and sizes agree, so this orders by path alone and puts
/// the designated survivor first.
pub fn sort_records(v: Vec<FileRecord>) -> (r: Vec<FileRecord>)
    ensures
        views_of(r@) == views_of(v@).sort_by(rec_le_fn()),
{
    let ghost target = views_of(v@);
    let ghost leq = rec_le_fn();
    let mut rest = v;
    let mut out: Vec<FileRecord> = Vec::new();
    proof {
        lemma_rec_le_total_ordering();
        assert(views_of(out@) =~= Seq::<RecordView>::empty());
        assert(views_of(out@).to_multiset().add(views_of(rest@).to_multiset())
            =~= target.to_multiset());
    }
    while rest.len() > 0
        invariant
            vstd::relations::total_ordering(rec_le_fn()),
            vstd::relations::sorted_by(views_of(out@), rec_le_fn()),
            views_of(out@).to_multiset().add(views_of(rest@).to_multiset())
                == target.to_multiset(),
        decreases rest.len(),
    {
        let ghost old_rest = rest@;
        let ghost old_out_views = views_of(out@);
        let x = rest.remove(0);
        proof {
            assert(views_of(rest@) =~= views_of(old_rest).remove(0));
            assert(views_of(old_rest)[0] == x@);
            assert(views_of(old_rest).to_multiset()
                == views_of(rest@).to_multiset().insert(x@));
        }
        let mut pos: usize = 0;
        while pos < out.len() && rec_le_exec(&out[pos], &x)
            invariant
                pos <= out.len(),
                views_of(out@) == old_out_views,
                forall|k: int| 0 <= k < pos ==> rec_le(#[trigger] views_of(out@)[k], x@),
            decreases out.len() - pos,
        {
            pos = pos + 1;
        }
        proof {
            if pos < out.len() {
                assert(views_of(out@)[pos as int] == out@[pos as int]@);
                assert(!rec_le_fn()(out@[pos as int]@, x@));
                assert(rec_le_fn()(x@, views_of(out@)[pos as int]));
            }
        }
        out.insert(pos, x);
        proof {
            assert(views_of(out@) =~= old_out_views.insert(pos as int, x@));
            assert forall|i: int, j: int|
                0 <= i < j < views_of(out@).len() implies rec_le_fn()(
                views_of(out@)[i],
                views_of(out@)[j],
            ) by {
                let vo = views_of(out@);
                let p = pos as int;
                if i < p && j == p {
                    assert(rec_le(old_out_views[i], x@));
                } else if i == p && j > p {
                    assert(rec_le_fn()(x@, old_out_views[p]));
                    assert(rec_le_fn()(old_out_views[p], old_out_views[j - 1]) || p == j - 1);
                } else if i < p && j > p {
                    assert(rec_le_fn()(old_out_views[i], old_out_views[j - 1]) || i == j - 1);
                }
            }
        }
    }
    proof {
        assert(views_of(rest@) =~= Seq::<RecordView>::empty());
        assert(views_of(out@).to_multiset() =~= target.to_multiset());
        target.lemma_sort_by_ensures(leq);
        vstd::seq_lib::lemma_sorted_unique(views_of(out@), target.sort_by(leq), leq);
    }
    out
}

/// The views of a vector of groups.
pub open spec fn groups_views(gs: Seq<Vec<FileRecord>>) -> Seq<Seq<RecordView>> {
    gs.map_values(|g: Vec<FileRecord>| views_of(g@))
}

/// Buckets the records by digest: one bucket per distinct digest, buckets
/// in first-occurrence order, each holding its records in scan order.
pub fn group_records(records: Vec<FileRecord>) -> (gs: Vec<Vec<FileRecord>>)
    ensures
        groups_views(gs@) == group_seq(views_of(records@)),
{
    let ghost all = views_of(records@);
    let mut rest = records;
    let ghost mut done: Seq<RecordView> = Seq::empty();
    let mut gs: Vec<Vec<FileRecord>> = Vec::new();
    proof {
        assert(views_of(rest@) =~= all);
        assert(done + views_of(rest@) =~= all);
        assert(groups_views(gs@) =~= group_seq(done));
    }
    while rest.len() > 0
        invariant
            done + views_of(rest@) == all,
            groups_views(gs@) == group_seq(done),
        decreases rest.len(),
    {
        let ghost old_rest = rest@;
        let ghost old_done = done;
        let ghost old_gs = gs@;
        let ghost dd = distinct_digests(old_done);
        let r = rest.remove(0);
        proof {
            assert(views_of(rest@) =~= views_of(old_rest).remove(0));
            assert(views_of(old_rest)[0] == r@);
            assert(old_done.push(r@) + views_of(rest@) =~= old_done + views_of(old_rest));
            lemma_group_seq_shape(old_done);
            assert(gs@.len() == dd.len());
            assert forall|k: int| 0 <= k < gs@.len() implies (#[trigger] gs@[k])@.len() > 0
                && views_of(gs@[k]@)[0].digest == dd[k] by {
                assert(groups_views(gs@)[k] == views_of(gs@[k]@));
                assert(group_seq(old_done)[k].len() > 0);
                assert(group_seq(old_done)[k][0].digest == dd[k]);
            }
        }
        let mut j: usize = 0;
        while j < gs.len() && !(gs[j][0].digest == r.digest)
            invariant
                j <= gs.len(),
                gs@ == old_gs,
                groups_views(gs@) == group_seq(old_done),
                gs@.len() == distinct_digests(old_done).len(),
                forall|k: int|
                    0 <= k < gs@.len() ==> (#[trigger] gs@[k])@.len() > 0
                        && views_of(gs@[k]@)[0].digest == distinct_digests(old_done)[k],
                forall|k: int|
                    0 <= k < j ==> #[trigger] distinct_digests(old_done)[k] != r@.digest,
            decreases gs.len() - j,
        {
            proof {
                assert(views_of(gs@[j as int]@)[0] == gs@[j as int]@[0]@);
            }
            j = j + 1;
        }
        proof {
            done = old_done.push(r@);
            assert(done.drop_last() =~= old_done);
            assert(done.last() == r@);
        }
        if j < gs.len() {
            proof {
                assert(views_of(gs@[j as int]@)[0] == gs@[j as int]@[0]@);
                assert(dd[j as int] == r@.digest);
                assert(dd.contains(r@.digest));
                assert(distinct_digests(done) == dd);
            }
            let mut g = gs.remove(j);
            g.push(r);
            gs.insert(j, g);
            proof {
                let jj = j as int;
                assert(gs@ =~= old_gs.update(jj, gs@[jj]));
                assert(gs@[jj]@ =~= old_gs[jj]@.push(r));
                assert(views_of(gs@[jj]@) =~= views_of(old_gs[jj]@).push(r@));
                assert forall|k: int| 0 <= k < dd.len() implies #[trigger] group_seq(done)[k]
                    == groups_views(gs@)[k] by {
                    let pred = |rv: RecordView| rv.digest == dd[k];
                    lemma_filter_push(old_done, pred, r@);
                    assert(group_of(done, dd[k]) == old_done.push(r@).filter(pred));
                    assert(group_seq(done)[k] == group_of(done, distinct_digests(done)[k]));
                    assert(distinct_digests(done)[k] == dd[k]);
                    assert(groups_views(gs@)[k] == views_of(gs@[k]@));
                    assert(group_seq(old_done)[k] == group_of(old_done, dd[k]));
                    assert(groups_views(old_gs)[k] == views_of(old_gs[k]@));
                    assert(views_of(old_gs[k]@) == group_of(old_done, dd[k]));
                    if k == jj {
                        assert(r@.digest == dd[k]);
                        assert(group_of(done, dd[k]) == group_of(old_done, dd[k]).push(r@));
                        assert(views_of(gs@[k]@) =~= views_of(old_gs[k]@).push(r@));
                        assert(groups_views(old_gs)[k] == group_of(old_done, dd[k]));
                    } else {
                        assert(dd[k] != r@.digest);
                        assert(group_of(done, dd[k]) == group_of(old_done, dd[k]));
                        assert(views_of(gs@[k]@) == views_of(old_gs[k]@));
                    }
                }
                assert(groups_views(gs@) =~= group_seq(done));
            }
        } else {
            let mut g: Vec<FileRecord> = Vec::new();
            g.push(r);
            gs.push(g);
            proof {
                let pred_d = |rv: RecordView| rv.digest == r@.digest;
                assert forall|k: int| 0 <= k < dd.len() implies #[trigger] dd[k]
                    != r@.digest by {}
                assert(!dd.contains(r@.digest));
                assert(distinct_digests(done) == dd.push(r@.digest));
                lemma_distinct_digests_props(old_done);
                assert forall|i: int| 0 <= i < old_done.len() implies !pred_d(
                    #[trigger] old_done[i],
                ) by {
                    assert(dd.contains(old_done[i].digest));
                }
                lemma_filter_all_false(old_done, pred_d);
                lemma_filter_push(old_done, pred_d, r@);
                assert(group_of(done, r@.digest) =~= seq![r@]);
                assert(views_of(g@) =~= seq![r@]);
                assert forall|k: int| 0 <= k < dd.len() implies #[trigger] group_seq(done)[k]
                    == groups_views(gs@)[k] by {
                    let pred = |rv: RecordView| rv.digest == dd[k];
                    lemma_filter_push(old_done, pred, r@);
                    assert(group_of(done, dd[k]) == group_of(old_done, dd[k]));
                    assert(group_seq(done)[k] == group_of(done, distinct_digests(done)[k]));
                    assert(distinct_digests(done)[k] == dd[k]);
                    assert(gs@[k] == old_gs[k]);
                    assert(groups_views(gs@)[k] == views_of(gs@[k]@));
                    assert(group_seq(old_done)[k] == group_of(old_done, dd[k]));
                    assert(groups_views(old_gs)[k] == views_of(old_gs[k]@));
                    assert(views_of(gs@[k]@) == views_of(old_gs[k]@));
                }
                assert(group_seq(done)[dd.len() as int] == group_of(done, r@.digest));
                assert(groups_views(gs@)[dd.len() as int] == views_of(g@));
                assert(groups_views(gs@) =~= group_seq(done));
            }
        }
    }
    proof {
        assert(views_of(rest@) =~= Seq::<RecordView>::empty());
        assert(done =~= all);
    }
    gs
}

/// Bytes reclaimable from one group: deleting all but one copy frees
/// `size * (count - 1)`; a group of fewer than two records frees nothing.
pub open spec fn reclaim_of(g: Seq<RecordView>) -> int {
    if g.len() >= 2 {
        g[0].size * (g.len() - 1)
    } else {
        0
    }
}

/// Total bytes reclaimable over a sequence of groups.
pub open spec fn total_reclaim(gs: Seq<Seq<RecordView>>) -> int
    decreases gs.len(),
{
    if gs.len() == 0 {
        0
    } else {
        total_reclaim(gs.drop_last()) + reclaim_of(gs.last())
    }
}

/// The groups a plan reports: those with at least two records, each
/// sorted so that its survivor comes first.
pub open spec fn kept_groups(gs: Seq<Seq<RecordView>>) -> Seq<Seq<RecordView>>
    decreases gs.len(),
{
    if gs.len() == 0 {
        Seq::empty()
    } else if gs.last().len() >= 2 {
        kept_groups(gs.drop_last()).push(gs.last().sort_by(rec_le_fn()))
    } else {
        kept_groups(gs.drop_last())
    }
}

/// All members of the group share the size of its first member.
pub open spec fn group_uniform(g: Seq<RecordView>) -> bool {
    forall|m: int| 0 <= m < g.len() ==> #[trigger] g[m].size == g[0].size
}

/// Records sharing a digest always share a size.
pub open spec fn size_consistent(rs: Seq<RecordView>) -> bool {
    forall|i: int, j: int|
        #![trigger rs[i].digest, rs[j].digest]
        0 <= i < rs.len() && 0 <= j < rs.len() && rs[i].digest == rs[j].digest ==> rs[i].size
            == rs[j].size
}

/// A total clamped to what a 64-bit counter can hold.
pub open spec fn clamped(t: int) -> int {
    if t > u64::MAX {
        u64::MAX as int
    } else {
        t
    }
}

proof fn lemma_total_reclaim_nonneg(gs: Seq<Seq<RecordView>>)
    ensures
        total_reclaim(gs) >= 0,
    decreases gs.len(),
{
    if gs.len() > 0 {
        lemma_total_reclaim_nonneg(gs.drop_last());
        let g = gs.last();
        if g.len() >= 2 {
            assert(g[0].size * (g.len() - 1) >= 0) by (nonlinear_arith)
                requires
                    g[0].size >= 0,
                    g.len() >= 2,
            ;
        }
    }
}

proof fn lemma_uniform_groups_consistent(rs: Seq<RecordView>)
    requires
        forall|k: int|
            0 <= k < group_seq(rs).len() ==> group_uniform(#[trigger] group_seq(rs)[k]),
    ensures
        size_consistent(rs),
{
    lemma_distinct_digests_props(rs);
    lemma_group_seq_shape(rs);
    let dd = distinct_digests(rs);
    assert forall|i: int, j: int|
        #![trigger rs[i].digest, rs[j].digest]
        0 <= i < rs.len() && 0 <= j < rs.len() && rs[i].digest == rs[j].digest implies rs[i].size
        == rs[j].size by {
        let d = rs[i].digest;
        assert(dd.contains(d));
        let k = choose|k: int| 0 <= k < dd.len() && dd[k] == d;
        let pred = |rv: RecordView| rv.digest == d;
        rs.lemma_filter_contains(pred, i);
        rs.lemma_filter_contains(pred, j);
        let gk = group_of(rs, d);
        assert(group_seq(rs)[k] == group_of(rs, dd[k]));
        assert(group_uniform(gk));
        let a = choose|a: int| 0 <= a < gk.len() && gk[a] == rs[i];
        let b = choose|b: int| 0 <= b < gk.len() && gk[b] == rs[j];
        assert(gk[a].size == gk[0].size);
        assert(gk[b].size == gk[0].size);
    }
}

/// The deletion plan: every duplicate group, sorted with the survivor
/// first, and the total number of bytes the deletions would reclaim.
#[derive(Debug)]
pub struct DedupPlan {
    pub groups: Vec<Vec<FileRecord>>,
    pub total_reclaimable: u64,
}

/// A fatal integrity violation: two records carry one digest but two
/// different sizes, which breaks the digest's content-equality trust.
#[derive(Debug)]
pub struct IntegrityError {
    pub digest: String,
    pub size_a: u64,
    pub size_b: u64,
}

/// Groups the records by digest and builds the deletion plan: per group
/// of two or more the members sorted with the lexicographically smallest
/// path first, and the clamped total of bytes reclaimable. Fails exactly
/// when two records share a digest but differ in size.
pub fn build_plan(records: Vec<FileRecord>) -> (r: Result<DedupPlan, IntegrityError>)
    ensures
        r is Ok <==> size_consistent(views_of(records@)),
        (r matches Ok(plan) ==> groups_views(plan.groups@) == kept_groups(
            group_seq(views_of(records@)),
        )),
        (r matches Ok(plan) ==> plan.total_reclaimable == clamped(
            total_reclaim(group_seq(views_of(records@))),
        )),
        (r matches Err(e) ==> exists|i: int, j: int|
            0 <= i < views_of(records@).len() && 0 <= j < views_of(records@).len()
                && #[trigger] views_of(records@)[i].digest == #[trigger] views_of(
                records@,
            )[j].digest && views_of(records@)[i].size != views_of(records@)[j].size && views_of(
                records@,
            )[i].digest == e.digest@),
{
    let ghost all = views_of(records@);
    let ghost gseq = group_seq(all);
    let mut raw = group_records(records);
    let mut out: Vec<Vec<FileRecord>> = Vec::new();
    let mut total: u64 = 0;
    let ghost mut i: int = 0;
    proof {
        assert(groups_views(raw@) =~= gseq.skip(0));
        assert(gseq.take(0) =~= Seq::<Seq<RecordView>>::empty());
        assert(groups_views(out@) =~= kept_groups(gseq.take(0)));
    }
    while raw.len() > 0
        invariant
            0 <= i <= gseq.len(),
            i + raw@.len() == gseq.len(),
            gseq == group_seq(all),
            all == views_of(records@),
            groups_views(raw@) == gseq.skip(i),
            groups_views(out@) == kept_groups(gseq.take(i)),
            total == clamped(total_reclaim(gseq.take(i))),
            forall|k: int| 0 <= k < i ==> group_uniform(#[trigger] gseq[k]),
        decreases raw@.len(),
    {
        let ghost old_raw = raw@;
        let ghost gv = groups_views(raw@)[0];
        let g = raw.remove(0);
        proof {
            assert(views_of(g@) == gv);
            assert(gv == gseq.skip(i)[0]);
            assert(gv == gseq[i]);
            assert forall|k: int| 0 <= k < raw@.len() implies #[trigger] groups_views(raw@)[k]
                == gseq.skip(i + 1)[k] by {
                assert(raw@[k] == old_raw[k + 1]);
                assert(groups_views(old_raw)[k + 1] == gseq.skip(i)[k + 1]);
                assert(gseq.skip(i)[k + 1] == gseq[i + 1 + k]);
                assert(gseq.skip(i + 1)[k] == gseq[i + 1 + k]);
            }
            assert(groups_views(raw@) =~= gseq.skip(i + 1));
            assert(gseq.take(i + 1).drop_last() =~= gseq.take(i));
            assert(gseq.take(i + 1).last() == gseq[i]);
            assert(gv.len() == g@.len());
        }
        if g.len() < 2 {
            proof {
                assert(reclaim_of(gseq[i]) == 0);
                assert(kept_groups(gseq.take(i + 1)) == kept_groups(gseq.take(i)));
                assert(total_reclaim(gseq.take(i + 1)) == total_reclaim(gseq.take(i)));
                assert(group_uniform(gseq[i]));
                i = i + 1;
            }
        } else {
            let first_size = g[0].size;
            proof {
                assert(first_size == gv[0].size);
            }
            let mut m: usize = 1;
            while m < g.len()
                invariant
                    1 <= m <= g@.len(),
                    g@.len() >= 2,
                    views_of(g@) == gv,
                    gv == gseq[i],
                    0 <= i < gseq.len(),
                    gseq == group_seq(all),
                    all == views_of(records@),
                    first_size == gv[0].size,
                    forall|t: int| 0 <= t < m ==> #[trigger] gv[t].size == first_size,
                decreases g@.len() - m,
            {
                if g[m].size != first_size {
                    let e = IntegrityError {
                        digest: g[m].digest.clone(),
                        size_a: first_size,
                        size_b: g[m].size,
                    };
                    proof {
                        let mm = m as int;
                        lemma_group_seq_shape(all);
                        let d = distinct_digests(all)[i];
                        assert(gv == group_of(all, d));
                        assert(gv[mm].digest == d);
                        assert(gv[0].digest == d);
                        assert(e.digest@ == gv[mm].digest);
                        let pred = |rv: RecordView| rv.digest == d;
                        lemma_filter_elements(all, pred);
                        assert(gv.contains(gv[mm]));
                        assert(gv.contains(gv[0]));
                        assert(all.contains(gv[mm]));
                        assert(all.contains(gv[0]));
                        let i0 = choose|i0: int| 0 <= i0 < all.len() && all[i0] == gv[mm];
                        let j0 = choose|j0: int| 0 <= j0 < all.len() && all[j0] == gv[0];
                        assert(all[i0].digest == all[j0].digest);
                        assert(all[i0].size != all[j0].size);
                        assert(all[i0].digest == e.digest@);
                        assert(views_of(records@)[i0].digest == views_of(records@)[j0].digest);
                        assert(views_of(records@)[i0].size != views_of(records@)[j0].size);
                        assert(views_of(records@)[i0].digest == e.digest@);
                        assert(!size_consistent(all));
                    }
                    return Result::Err(e);
                }
                m = m + 1;
            }
            let glen = g.len();
            let g_sorted = sort_records(g);
            let cnt: u64 = (glen - 1) as u64;
            let gr: u64 = match first_size.checked_mul(cnt) {
                Option::Some(x) => x,
                Option::None => u64::MAX,
            };
            total = total.saturating_add(gr);
            out.push(g_sorted);
            proof {
                let p = reclaim_of(gseq[i]);
                assert(p == gv[0].size * (gv.len() - 1));
                assert(p >= 0) by (nonlinear_arith)
                    requires
                        p == gv[0].size * (gv.len() - 1),
                        gv[0].size >= 0,
                        gv.len() >= 2,
                ;
                assert(gr == clamped(p));
                lemma_total_reclaim_nonneg(gseq.take(i));
                assert(total_reclaim(gseq.take(i + 1)) == total_reclaim(gseq.take(i)) + p);
                assert(kept_groups(gseq.take(i + 1)) == kept_groups(gseq.take(i)).push(
                    gseq[i].sort_by(rec_le_fn()),
                ));
                assert(views_of(g_sorted@) == gv.sort_by(rec_le_fn()));
                assert(groups_views(out@) =~= kept_groups(gseq.take(i + 1)));
                assert(group_uniform(gseq[i]));
                i = i + 1;
            }
        }
    }
    proof {
        assert(gseq.take(i) =~= gseq);
        lemma_uniform_groups_consistent(all);
    }
    Result::Ok(DedupPlan { groups: out, total_reclaimable: total })
}

/// Grouping is deterministic: the plan's groups and total are a function
/// of the record set alone, so two runs over equal record sets report
/// the same survivors and the same reclaimable total.
pub proof fn lemma_grouping_deterministic(a: Seq<RecordView>, b: Seq<RecordView>)
    requires
        a == b,
    ensures
        kept_groups(group_seq(a)) == kept_groups(group_seq(b)),
        total_reclaim(group_seq(a)) == total_reclaim(group_seq(b)),
{
}

proof fn lemma_kept_groups_sorted(gs: Seq<Seq<RecordView>>)
    ensures
        forall|k: int|
            0 <= k < kept_groups(gs).len() ==> #[trigger] kept_groups(gs)[k].len() >= 2
                && vstd::relations::sorted_by(kept_groups(gs)[k], rec_le_fn()),
    decreases gs.len(),
{
    lemma_rec_le_total_ordering();
    if gs.len() > 0 {
        lemma_kept_groups_sorted(gs.drop_last());
        let g = gs.last();
        if g.len() >= 2 {
            g.lemma_sort_by_ensures(rec_le_fn());
            let sg = g.sort_by(rec_le_fn());
            assert(sg.to_multiset().len() == g.to_multiset().len());
            assert(sg.len() >= 2);
            let kept = kept_groups(gs);
            let prev = kept_groups(gs.drop_last());
            assert(kept == prev.push(sg));
            assert(forall|k: int| 0 <= k < prev.len() ==> kept[k] == prev[k]);
        }
    }
}

/// In every reported group the first record carries the lexicographically
/// smallest path of the group: it is the designated survivor.
pub proof fn lemma_survivor_smallest(rs: Seq<RecordView>)
    ensures
        forall|k: int, m: int|
            #![trigger kept_groups(group_seq(rs))[k][m]]
            0 <= k < kept_groups(group_seq(rs)).len() && 0 <= m < kept_groups(group_seq(rs))[k].len()
                ==> lex_le(
                kept_groups(group_seq(rs))[k][0].path,
                kept_groups(group_seq(rs))[k][m].path,
            ),
{
    let kept = kept_groups(group_seq(rs));
    lemma_kept_groups_sorted(group_seq(rs));
    assert forall|k: int, m: int|
        #![trigger kept[k][m]]
        0 <= k < kept.len() && 0 <= m < kept[k].len() implies lex_le(
        kept[k][0].path,
        kept[k][m].path,
    ) by {
        if m > 0 {
            assert(rec_le_fn()(kept[k][0], kept[k][m]));
            if kept[k][0].path == kept[k][m].path {
                lemma_lex_le_refl(kept[k][0].path);
            }
        } else {
            lemma_lex_le_refl(kept[k][0].path);
        }
    }
}

proof fn lemma_consistent_groups_uniform(rs: Seq<RecordView>)
    requires
        size_consistent(rs),
    ensures
        forall|k: int|
            0 <= k < group_seq(rs).len() ==> group_uniform(#[trigger] group_seq(rs)[k]),
{
    lemma_group_seq_shape(rs);
    let dd = distinct_digests(rs);
    assert forall|k: int|
        0 <= k < group_seq(rs).len() implies group_uniform(#[trigger] group_seq(rs)[k]) by {
        let g = group_seq(rs)[k];
        let d = dd[k];
        let pred = |rv: RecordView| rv.digest == d;
        lemma_filter_elements(rs, pred);
        assert(g == group_of(rs, d));
        assert forall|m: int| 0 <= m < g.len() implies #[trigger] g[m].size == g[0].size by {
            assert(g.contains(g[m]));
            assert(g.contains(g[0]));
            assert(rs.contains(g[m]));
            assert(rs.contains(g[0]));
            let i0 = choose|i0: int| 0 <= i0 < rs.len() && rs[i0] == g[m];
            let j0 = choose|j0: int| 0 <= j0 < rs.len() && rs[j0] == g[0];
            assert(rs[i0].digest == rs[j0].digest);
        }
    }
}

/// The reported total counts exactly `size * (count - 1)` for each
/// reported group: dropping the single-record groups (each worth zero
/// bytes) and sorting each kept group changes the sum by nothing.
pub proof fn lemma_total_over_kept(rs: Seq<RecordView>)
    requires
        size_consistent(rs),
    ensures
        total_reclaim(kept_groups(group_seq(rs))) == total_reclaim(group_seq(rs)),
{
    lemma_consistent_groups_uniform(rs);
    lemma_total_kept_general(group_seq(rs));
}

proof fn lemma_total_kept_general(gs: Seq<Seq<RecordView>>)
    requires
        forall|k: int| 0 <= k < gs.len() ==> group_uniform(#[trigger] gs[k]),
    ensures
        total_reclaim(kept_groups(gs)) == total_reclaim(gs),
    decreases gs.len(),
{
    lemma_rec_le_total_ordering();
    if gs.len() > 0 {
        assert(forall|k: int| 0 <= k < gs.drop_last().len() ==> gs.drop_last()[k] == gs[k]);
        lemma_total_kept_general(gs.drop_last());
        let g = gs.last();
        if g.len() >= 2 {
            let sg = g.sort_by(rec_le_fn());
            g.lemma_sort_by_ensures(rec_le_fn());
            assert(sg.to_multiset().len() == g.to_multiset().len());
            assert(sg.len() == g.len());
            assert(sg.to_multiset().contains(sg[0]));
            assert(g.to_multiset().contains(sg[0]));
            assert(g.contains(sg[0]));
            let a = choose|a: int| 0 <= a < g.len() && g[a] == sg[0];
            assert(group_uniform(g));
            assert(g[a].size == g[0].size);
            assert(reclaim_of(sg) == reclaim_of(g));
            let kept = kept_groups(gs);
            let prev = kept_groups(gs.drop_last());
            assert(kept == prev.push(sg));
            assert(kept.drop_last() =~= prev);
            assert(kept.last() == sg);
            assert(total_reclaim(kept) == total_reclaim(prev) + reclaim_of(sg));
        }
    }
}

/// No two records of one scan share a path.
pub open spec fn distinct_paths(rs: Seq<RecordView>) -> bool {
    forall|i: int, j: int|
        #![trigger rs[i].path, rs[j].path]
        0 <= i < j < rs.len() ==> rs[i].path != rs[j].path
}

proof fn lemma_filter_distinct_paths(s: Seq<RecordView>, pred: spec_fn(RecordView) -> bool)
    requires
        distinct_paths(s),
    ensures
        distinct_paths(s.filter(pred)),
    decreases s.len(),
{
    reveal(Seq::filter);
    if s.len() > 0 {
        assert(forall|i: int| 0 <= i < s.drop_last().len() ==> s.drop_last()[i] == s[i]);
        assert(distinct_paths(s.drop_last()));
        lemma_filter_distinct_paths(s.drop_last(), pred);
        lemma_filter_elements(s.drop_last(), pred);
        let f = s.filter(pred);
        let fd = s.drop_last().filter(pred);
        assert forall|i: int, j: int|
            #![trigger f[i].path, f[j].path]
            0 <= i < j < f.len() implies f[i].path != f[j].path by {
            if pred(s.last()) && j == f.len() - 1 {
                assert(f[j] == s.last());
                assert(f[i] == fd[i]);
                assert(fd.contains(fd[i]));
                assert(s.drop_last().contains(fd[i]));
                let k = choose|k: int|
                    0 <= k < s.drop_last().len() && s.drop_last()[k] == fd[i];
                assert(s[k].path != s[s.len() - 1].path);
            } else {
                assert(f[i] == fd[i]);
                assert(f[j] == fd[j]);
            }
        }
    }
}

proof fn lemma_no_dup_groups_empty(gs: Seq<Seq<RecordView>>)
    requires
        forall|k: int| 0 <= k < gs.len() ==> (#[trigger] gs[k]).len() < 2,
    ensures
        kept_groups(gs) == Seq::<Seq<RecordView>>::empty(),
        total_reclaim(gs) == 0,
    decreases gs.len(),
{
    if gs.len() > 0 {
        assert(forall|k: int| 0 <= k < gs.drop_last().len() ==> gs.drop_last()[k] == gs[k]);
        lemma_no_dup_groups_empty(gs.drop_last());
    }
}

/// The path of the record a duplicate group retains: the first of the
/// group once sorted, the lexicographically smallest.
pub open spec fn survivor_path(rs: Seq<RecordView>, d: Seq<char>) -> Seq<char> {
    group_of(rs, d).sort_by(rec_le_fn())[0].path
}

/// Whether the plan built over `rs` leaves `r` on disk: a record without
/// a duplicate is untouched, and of a duplicate group only the record
/// carrying the survivor path stays.
pub open spec fn survives(rs: Seq<RecordView>, r: RecordView) -> bool {
    group_of(rs, r.digest).len() < 2 || r.path == survivor_path(rs, r.digest)
}

/// The records the plan leaves on disk.
pub open spec fn surviving(rs: Seq<RecordView>) -> Seq<RecordView> {
    rs.filter(|r: RecordView| survives(rs, r))
}

/// Running the tool again over what the plan left behind deletes nothing
/// further and reports no reclaimable bytes: grouping the surviving
/// records yields no duplicate group at all.
pub proof fn lemma_rerun_reclaims_nothing(rs: Seq<RecordView>)
    requires
        distinct_paths(rs),
    ensures
        kept_groups(group_seq(surviving(rs))).len() == 0,
        total_reclaim(group_seq(surviving(rs))) == 0,
{
    let s = surviving(rs);
    let surv_pred = |r: RecordView| survives(rs, r);
    lemma_filter_distinct_paths(rs, surv_pred);
    lemma_filter_elements(rs, surv_pred);
    lemma_group_seq_shape(s);
    let gs2 = group_seq(s);
    assert forall|k: int| 0 <= k < gs2.len() implies (#[trigger] gs2[k]).len() < 2 by {
        let d = distinct_digests(s)[k];
        let dpred = |r: RecordView| r.digest == d;
        let grp = group_of(s, d);
        assert(gs2[k] == grp);
        if grp.len() >= 2 {
            lemma_filter_elements(s, dpred);
            lemma_filter_distinct_paths(s, dpred);
            let x = grp[0];
            let y = grp[1];
            assert(x.path != y.path);
            s.lemma_filter_pred(dpred, 0);
            s.lemma_filter_pred(dpred, 1);
            assert(x.digest == d);
            assert(y.digest == d);
            assert(grp.contains(x));
            assert(grp.contains(y));
            assert(s.contains(x));
            assert(s.contains(y));
            let xi = choose|xi: int| 0 <= xi < s.len() && s[xi] == x;
            let yi = choose|yi: int| 0 <= yi < s.len() && s[yi] == y;
            rs.lemma_filter_pred(surv_pred, xi);
            rs.lemma_filter_pred(surv_pred, yi);
            assert(survives(rs, x));
            assert(survives(rs, y));
            assert(rs.contains(x));
            assert(rs.contains(y));
            let gr = group_of(rs, d);
            assert(group_of(rs, x.digest) == gr);
            assert(group_of(rs, y.digest) == gr);
            if gr.len() < 2 {
                let xr = choose|xr: int| 0 <= xr < rs.len() && rs[xr] == x;
                let yr = choose|yr: int| 0 <= yr < rs.len() && rs[yr] == y;
                rs.lemma_filter_contains(dpred, xr);
                rs.lemma_filter_contains(dpred, yr);
                assert(gr.contains(x));
                assert(gr.contains(y));
                let a = choose|a: int| 0 <= a < gr.len() && gr[a] == x;
                let b = choose|b: int| 0 <= b < gr.len() && gr[b] == y;
                assert(a != b);
                assert(false);
            } else {
                assert(x.path == survivor_path(rs, d));
                assert(y.path == survivor_path(rs, d));
                assert(false);
            }
        }
    }
    lemma_no_dup_groups_empty(gs2);
}

} // verus!
