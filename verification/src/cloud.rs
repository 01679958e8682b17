use vstd::prelude::*;
use crate::crowd::Member;
use crate::observation::Observation;

verus! {

broadcast use vstd::seq_lib::group_filter_ensures;

/// The observations of `s` that are still in use, in their order.
pub open spec fn live<G>(s: Seq<Observation<G>>) -> Seq<Observation<G>> {
    s.filter(|o: Observation<G>| o.valid())
}

/// The estimates with those of members `from` onwards cleared to the empty
/// observation over the `blank` area.
pub open spec fn forget<G>(est: Seq<Observation<G>>, from: int, blank: G) -> Seq<Observation<G>> {
    Seq::new(
        est.len(),
        |i: int| if i >= from { Observation { area: blank, id: 0usize, expired: true } } else { est[i] },
    )
}

/// Whether report `k` of `cloud` is to be overlaid onto the estimate of the
/// member it locates: it is in use, that member carries no application, and
/// that member's estimate is in use.
pub open spec fn needs_merge<G>(
    est: Seq<Observation<G>>,
    members: Seq<Member>,
    cloud: Seq<Observation<G>>,
    k: int,
) -> bool {
    let r = cloud[k];
    &&& r.valid()
    &&& !members[r.id as int].app
    &&& est[r.id as int].valid()
}

/// Estimates and reports after report `k` of `cloud` is taken into account,
/// where `merged` is what overlaying the report onto the member's estimate
/// gave (looked at only when `needs_merge` holds).
///
/// A report out of use is skipped. A report of a member with the application
/// is discarded. A report of a member with no estimate in use becomes its
/// estimate. Otherwise the overlay replaces the estimate if it is in use,
/// and the report is discarded if it is not.
pub open spec fn absorb<G>(
    est: Seq<Observation<G>>,
    members: Seq<Member>,
    cloud: Seq<Observation<G>>,
    k: int,
    merged: Observation<G>,
) -> (Seq<Observation<G>>, Seq<Observation<G>>) {
    let r = cloud[k];
    if !r.valid() {
        (est, cloud)
    } else if members[r.id as int].app {
        (est, cloud.update(k, r.discarded()))
    } else if est[r.id as int].valid() {
        if merged.valid() {
            (est.update(r.id as int, merged), cloud)
        } else {
            (est, cloud.update(k, r.discarded()))
        }
    } else {
        (est.update(r.id as int, r), cloud)
    }
}

/// Estimates and reports after the last `merges.len()` reports of `cloud`
/// have been taken into account, from the last one backwards, where
/// `merges.last()` is the overlay used for the report taken last.
pub open spec fn absorb_run<G>(
    est: Seq<Observation<G>>,
    members: Seq<Member>,
    cloud: Seq<Observation<G>>,
    merges: Seq<Observation<G>>,
) -> (Seq<Observation<G>>, Seq<Observation<G>>)
    decreases merges.len(),
{
    if merges.len() == 0 {
        (est, cloud)
    } else {
        let prev = absorb_run(est, members, cloud, merges.drop_last());
        absorb(prev.0, members, prev.1, cloud.len() - merges.len(), merges.last())
    }
}

/// Every overlay in `merges` that `absorb_run` looks at is a result that
/// `overlay` may give for the estimate and the report at that point.
pub open spec fn merges_agree<G, F: Fn(&Observation<G>, &Observation<G>) -> Observation<G>>(
    overlay: F,
    est: Seq<Observation<G>>,
    members: Seq<Member>,
    cloud: Seq<Observation<G>>,
    merges: Seq<Observation<G>>,
) -> bool
    decreases merges.len(),
{
    if merges.len() == 0 {
        true
    } else {
        let prev = absorb_run(est, members, cloud, merges.drop_last());
        let k = cloud.len() - merges.len();
        &&& merges_agree(overlay, est, members, cloud, merges.drop_last())
        &&& needs_merge(prev.0, members, prev.1, k) ==> call_ensures(
            overlay,
            (&prev.0[prev.1[k].id as int], &prev.1[k]),
            merges.last(),
        )
    }
}

/// Clears the estimates of members `from` onwards.
pub fn forget_estimates<G: Copy>(estimates: &mut Vec<Observation<G>>, from: usize, blank: G)
    ensures
        final(estimates)@ == forget(old(estimates)@, from as int, blank),
        final(estimates).len() == old(estimates).len(),
        forall|i: int|
            from <= i < final(estimates).len() ==> #[trigger] final(estimates)@[i] == (Observation {
                area: blank,
                id: 0usize,
                expired: true,
            }),
        forall|i: int| 0 <= i < from && i < final(estimates).len() ==> #[trigger] final(estimates)@[i] == old(estimates)@[i],
{
    let n = estimates.len();
    let mut i: usize = from;
    while i < n
        invariant
            n == estimates.len(),
            from <= i,
            estimates.len() == old(estimates).len(),
            forall|k: int|
                0 <= k < n ==> #[trigger] estimates@[k] == if from <= k < i {
                    Observation { area: blank, id: 0usize, expired: true }
                } else {
                    old(estimates)@[k]
                },
        decreases n - i,
    {
        estimates.set(i, Observation::empty(blank));
        i = i + 1;
    }
    assert(estimates@ =~= forget(old(estimates)@, from as int, blank));
    proof {
        lemma_forget_clears_from(old(estimates)@, from as int, blank);
    }
}

/// Drops the reports that are out of use, keeping the others in order.
pub fn remove_expired<G: Copy>(cloud: &mut Vec<Observation<G>>)
    ensures
        final(cloud)@ == live(old(cloud)@),
        final(cloud).len() == in_use_count(old(cloud)@),
        forall|k: int| 0 <= k < final(cloud).len() ==> (#[trigger] final(cloud)@[k]).valid(),
        forall|k: int| 0 <= k < old(cloud).len() && (#[trigger] old(cloud)@[k]).valid() ==> final(cloud)@.contains(old(cloud)@[k]),
{
    let n = cloud.len();
    let mut kept: Vec<Observation<G>> = Vec::new();
    let mut i: usize = 0;
    while i < n
        invariant
            n == cloud.len(),
            i <= n,
            cloud@ == old(cloud)@,
            kept@ == live(cloud@.take(i as int)),
        decreases n - i,
    {
        let o = cloud[i];
        proof {
            reveal(Seq::filter);
            assert(cloud@.take(i + 1).drop_last() =~= cloud@.take(i as int));
            assert(cloud@.take(i + 1).last() == o);
        }
        if o.is_valid() {
            kept.push(o);
        }
        i = i + 1;
    }
    assert(cloud@.take(n as int) =~= cloud@);
    proof {
        lemma_live_keeps_exactly_the_reports_in_use(cloud@);
    }
    *cloud = kept;
}

/// The number of reports of `s` that are in use.
pub open spec fn in_use_count<G>(s: Seq<Observation<G>>) -> nat
    decreases s.len(),
{
    if s.len() == 0 {
        0
    } else {
        in_use_count(s.drop_last()) + if s.last().valid() { 1nat } else { 0nat }
    }
}

/// Dropping the reports out of use keeps every report in use and nothing
/// else: as many reports as were in use, each of them, all in use.
pub proof fn lemma_live_keeps_exactly_the_reports_in_use<G>(s: Seq<Observation<G>>)
    ensures
        live(s).len() == in_use_count(s),
        forall|k: int| 0 <= k < live(s).len() ==> (#[trigger] live(s)[k]).valid(),
        forall|k: int| 0 <= k < s.len() && (#[trigger] s[k]).valid() ==> live(s).contains(s[k]),
    decreases s.len(),
{
    reveal(Seq::filter);
    if s.len() > 0 {
        lemma_live_keeps_exactly_the_reports_in_use(s.drop_last());
        let rest = live(s.drop_last());
        assert forall|k: int| 0 <= k < s.len() && (#[trigger] s[k]).valid() implies live(s).contains(s[k]) by {
            if k < s.len() - 1 {
                assert(s.drop_last()[k] == s[k]);
                assert(rest.contains(s[k]));
                let j = choose|j: int| 0 <= j < rest.len() && rest[j] == s[k];
                assert(live(s)[j] == s[k]);
            } else {
                assert(live(s)[live(s).len() - 1] == s[k]);
            }
        }
        assert forall|k: int| 0 <= k < live(s).len() implies (#[trigger] live(s)[k]).valid() by {
            if k < rest.len() {
                assert(live(s)[k] == rest[k]);
            }
        }
    }
}

/// Dropping the reports out of use works report by report: on two clouds
/// one after the other it gives the two results one after the other, and a
/// single report is kept exactly when it is in use.
pub proof fn lemma_live_piecewise<G>(s: Seq<Observation<G>>, t: Seq<Observation<G>>, o: Observation<G>)
    ensures
        live(s + t) == live(s) + live(t),
        live(seq![o]) == if o.valid() { seq![o] } else { Seq::<Observation<G>>::empty() },
{
    Seq::filter_distributes_over_add(s, t, |o: Observation<G>| o.valid());
    reveal_with_fuel(Seq::filter, 2);
    assert(seq![o].drop_last() =~= Seq::<Observation<G>>::empty());
}

/// Reports are taken newest first: the first report taken into account is
/// the last one of the cloud, and one more step takes the report just
/// before those already taken.
pub proof fn lemma_absorb_run_newest_first<G>(
    est: Seq<Observation<G>>,
    members: Seq<Member>,
    cloud: Seq<Observation<G>>,
    merges: Seq<Observation<G>>,
    x: Observation<G>,
)
    requires
        merges.len() < cloud.len(),
    ensures
        absorb_run(est, members, cloud, seq![x]) == absorb(est, members, cloud, cloud.len() - 1, x),
        ({
            let prev = absorb_run(est, members, cloud, merges);
            absorb_run(est, members, cloud, merges.push(x))
                == absorb(prev.0, members, prev.1, cloud.len() - 1 - merges.len(), x)
        }),
{
    assert(seq![x].drop_last() =~= Seq::<Observation<G>>::empty());
    assert(absorb_run(est, members, cloud, Seq::<Observation<G>>::empty()) == (est, cloud));
    assert(seq![x].last() == x);
    assert(merges.push(x).drop_last() =~= merges);
}

/// Clearing estimates from member `from` on leaves every estimate from `from`
/// on out of use, equal to the empty observation over `blank`, whatever it
/// held, and every estimate before `from` as it was.
pub proof fn lemma_forget_clears_from<G>(est: Seq<Observation<G>>, from: int, blank: G)
    ensures
        forget(est, from, blank).len() == est.len(),
        forall|i: int|
            0 <= i < est.len() && i >= from ==> {
                &&& !(#[trigger] forget(est, from, blank)[i]).valid()
                &&& forget(est, from, blank)[i] == (Observation { area: blank, id: 0usize, expired: true })
            },
        forall|i: int| 0 <= i < est.len() && i < from ==> #[trigger] forget(est, from, blank)[i] == est[i],
{
}

/// How one report changes the estimates and the cloud:
/// - a report out of use changes nothing;
/// - a report of a member with the application is discarded and no
///   estimate changes;
/// - a report of a member without an estimate in use becomes its estimate;
/// - otherwise an overlay in use replaces the member's estimate and keeps the
///   report, while an overlay out of use keeps the estimate and discards the
///   report.
/// No other estimate and no other report changes.
pub proof fn lemma_absorb_cases<G>(
    est: Seq<Observation<G>>,
    members: Seq<Member>,
    cloud: Seq<Observation<G>>,
    k: int,
    merged: Observation<G>,
)
    requires
        0 <= k < cloud.len(),
        est.len() == members.len(),
        cloud[k].valid() ==> cloud[k].id < members.len(),
    ensures
        ({
            let r = cloud[k];
            let id = r.id as int;
            let (e2, c2) = absorb(est, members, cloud, k, merged);
            &&& e2.len() == est.len()
            &&& c2.len() == cloud.len()
            &&& forall|i: int| 0 <= i < est.len() && i != id ==> #[trigger] e2[i] == est[i]
            &&& forall|j: int| 0 <= j < cloud.len() && j != k ==> #[trigger] c2[j] == cloud[j]
            &&& !r.valid() ==> e2 == est && c2 == cloud
            &&& r.valid() && members[id].app ==> {
                &&& e2 == est
                &&& c2[k] == (Observation { area: r.area, id: r.id, expired: true })
            }
            &&& r.valid() && !members[id].app && !est[id].valid() ==> {
                &&& e2[id] == r
                &&& c2 == cloud
            }
            &&& r.valid() && !members[id].app && est[id].valid() && merged.valid() ==> {
                &&& e2[id] == merged
                &&& c2 == cloud
            }
            &&& r.valid() && !members[id].app && est[id].valid() && !merged.valid() ==> {
                &&& e2 == est
                &&& c2[k] == (Observation { area: r.area, id: r.id, expired: true })
            }
        }),
{
}

/// Dropping the reports out of use twice drops nothing more.
pub proof fn lemma_live_idempotent<G>(s: Seq<Observation<G>>)
    ensures
        live(live(s)) == live(s),
    decreases s.len(),
{
    reveal(Seq::filter);
    if s.len() > 0 {
        lemma_live_idempotent(s.drop_last());
        let rest = live(s.drop_last());
        if s.last().valid() {
            assert(live(s) == rest.push(s.last()));
            assert(live(s).drop_last() =~= rest);
        }
    }
}

/// While the reports are taken into account: those not yet reached are
/// unchanged, the estimates keep their length, a member with the
/// application keeps its estimate, and every report already reached that is
/// still in use locates a member without the application.
pub proof fn lemma_absorb_run_frame<G>(
    est: Seq<Observation<G>>,
    members: Seq<Member>,
    cloud: Seq<Observation<G>>,
    merges: Seq<Observation<G>>,
)
    requires
        merges.len() <= cloud.len(),
        est.len() == members.len(),
        forall|k: int| 0 <= k < cloud.len() && (#[trigger] cloud[k]).valid() ==> cloud[k].id < members.len(),
    ensures
        ({
            let run = absorb_run(est, members, cloud, merges);
            &&& run.0.len() == est.len()
            &&& run.1.len() == cloud.len()
            &&& forall|k: int| 0 <= k < cloud.len() - merges.len() ==> #[trigger] run.1[k] == cloud[k]
            &&& forall|i: int| 0 <= i < est.len() && (#[trigger] members[i]).app ==> run.0[i] == est[i]
            &&& forall|k: int|
                cloud.len() - merges.len() <= k < cloud.len() && (#[trigger] run.1[k]).valid() ==> {
                    &&& run.1[k].id < members.len()
                    &&& !members[run.1[k].id as int].app
                }
        }),
    decreases merges.len(),
{
    if merges.len() > 0 {
        lemma_absorb_run_frame(est, members, cloud, merges.drop_last());
        let prev = absorb_run(est, members, cloud, merges.drop_last());
        let k = cloud.len() - merges.len();
        assert(prev.1[k] == cloud[k]);
    }
}

/// Takes one step of the localisation service.
///
/// The estimates of members `first_tracked` onwards are cleared first. Then
/// the reports in `cloud` are taken into account from the last one
/// backwards, as `absorb` says, overlaying a report onto an estimate in use
/// with `overlay`. Last, the reports that were discarded, now or before,
/// are dropped.
pub fn cloud_step<G: Copy, F: Fn(&Observation<G>, &Observation<G>) -> Observation<G>>(
    estimates: &mut Vec<Observation<G>>,
    members: &Vec<Member>,
    cloud: &mut Vec<Observation<G>>,
    first_tracked: usize,
    blank: G,
    overlay: &F,
)
    requires
        old(estimates).len() == members.len(),
        forall|k: int|
            0 <= k < old(cloud).len() && (#[trigger] old(cloud)@[k]).valid() ==> old(cloud)@[k].id
                < members.len(),
        forall|a: Observation<G>, b: Observation<G>| call_requires(*overlay, (&a, &b)),
    ensures
        final(estimates).len() == members.len(),
        final(cloud).len() <= old(cloud).len(),
        exists|merges: Seq<Observation<G>>|
            #![trigger absorb_run(forget(old(estimates)@, first_tracked as int, blank), members@, old(cloud)@, merges)]
            {
                let est0 = forget(old(estimates)@, first_tracked as int, blank);
                let run = absorb_run(est0, members@, old(cloud)@, merges);
                &&& merges.len() == old(cloud).len()
                &&& merges_agree(*overlay, est0, members@, old(cloud)@, merges)
                &&& final(estimates)@ == run.0
                &&& final(cloud)@ == live(run.1)
            },
        forall|k: int|
            0 <= k < final(cloud).len() ==> {
                &&& (#[trigger] final(cloud)@[k]).valid()
                &&& final(cloud)@[k].id < members.len()
                &&& !members@[final(cloud)@[k].id as int].app
            },
        forall|i: int|
            0 <= i < first_tracked && 0 <= i < members.len() && (#[trigger] members@[i]).app
                ==> final(estimates)@[i] == old(estimates)@[i],
{
    forget_estimates(estimates, first_tracked, blank);
    let ghost est0 = estimates@;
    let ghost cloud0 = cloud@;
    let ghost mut merges: Seq<Observation<G>> = Seq::empty();
    let n = cloud.len();
    let mut i: usize = n;
    while i > 0
        invariant
            n == cloud0.len(),
            i <= n,
            cloud.len() == n,
            merges.len() == n - i,
            est0.len() == members.len(),
            estimates.len() == members.len(),
            forall|k: int| 0 <= k < n && (#[trigger] cloud0[k]).valid() ==> cloud0[k].id < members.len(),
            forall|a: Observation<G>, b: Observation<G>| call_requires(*overlay, (&a, &b)),
            forall|k: int| 0 <= k < i ==> #[trigger] cloud@[k] == cloud0[k],
            merges_agree(*overlay, est0, members@, cloud0, merges),
            estimates@ == absorb_run(est0, members@, cloud0, merges).0,
            cloud@ == absorb_run(est0, members@, cloud0, merges).1,
        decreases i,
    {
        i = i - 1;
        let report = cloud[i];
        let mut merged = report;
        if report.is_valid() {
            let id = report.id;
            if members[id].app {
                cloud.set(i, Observation { area: report.area, id: report.id, expired: true });
            } else {
                let current = estimates[id];
                if current.is_valid() {
                    merged = overlay(&current, &report);
                    if merged.is_valid() {
                        estimates.set(id, merged);
                    } else {
                        cloud.set(i, Observation { area: report.area, id: report.id, expired: true });
                    }
                } else {
                    estimates.set(id, report);
                }
            }
        }
        proof {
            let next = merges.push(merged);
            assert(next.drop_last() =~= merges);
            merges = next;
            assert(estimates@ =~= absorb_run(est0, members@, cloud0, merges).0);
            assert(cloud@ =~= absorb_run(est0, members@, cloud0, merges).1);
        }
    }
    let ghost run = absorb_run(est0, members@, cloud0, merges);
    proof {
        lemma_absorb_run_frame(est0, members@, cloud0, merges);
    }
    remove_expired(cloud);
    proof {
        assert forall|k: int| 0 <= k < cloud.len() implies {
            &&& (#[trigger] cloud@[k]).valid()
            &&& cloud@[k].id < members.len()
            &&& !members@[cloud@[k].id as int].app
        } by {
            let o = cloud@[k];
            assert(live(run.1).contains(o));
            run.1.lemma_filter_contains_rev(|o: Observation<G>| o.valid(), o);
        }
    }
}

} // verus!
