use vstd::prelude::*;
use crate::observation::Observation;

verus! {

/// What the localisation logic reads of a member of the crowd: its id,
/// whether it carries the phone application that reports what it sees, and
/// whether others can discover it.
#[derive(Clone, Copy, Debug, PartialEq, Eq)]
pub struct Member {
    pub id: usize,
    pub app: bool,
    pub discoverable: bool,
}

/// The members spawned at the start of a localisation experiment: `count`
/// members with ids `0..count`, the first `app_count` of them carrying the
/// application, all of them discoverable.
pub open spec fn spawned(count: nat, app_count: nat) -> Seq<Member> {
    Seq::new(count, |i: int| Member { id: i as usize, app: i < app_count, discoverable: true })
}

/// Spawns the members of a localisation experiment.
pub fn spawn_members(count: usize, app_count: usize) -> (members: Vec<Member>)
    ensures
        members@ == spawned(count as nat, app_count as nat),
{
    let mut members: Vec<Member> = Vec::new();
    let mut i: usize = 0;
    while i < count
        invariant
            i <= count,
            members@ == spawned(i as nat, app_count as nat),
        decreases count - i,
    {
        members.push(Member { id: i, app: i < app_count, discoverable: true });
        i = i + 1;
        assert(members@ =~= spawned(i as nat, app_count as nat));
    }
    members
}

/// What `observer`, whose own estimate is `estimate`, reports of `seen`.
///
/// Nothing is reported unless `seen` is within discovery range, is
/// discoverable and carries no application (those locate themselves). An
/// observer with the application reports `seen` within `direct_area` (its
/// own position widened by the discovery range); an observer without it
/// relays its own estimate, widened to `relayed_area`, provided it is itself
/// discoverable and has an estimate in use.
pub open spec fn sighting<G>(
    observer: Member,
    estimate: Observation<G>,
    seen: Member,
    in_range: bool,
    direct_area: G,
    relayed_area: G,
) -> Option<Observation<G>> {
    if in_range && seen.discoverable && !seen.app {
        if observer.app {
            Some(Observation { area: direct_area, id: seen.id, expired: false })
        } else if observer.discoverable && estimate.valid() {
            Some(Observation { area: relayed_area, id: seen.id, expired: false })
        } else {
            None
        }
    } else {
        None
    }
}

/// The reports that member `observer` makes of the first `n` members, in
/// order, leaving itself out.
pub open spec fn sightings_upto<G>(
    members: Seq<Member>,
    observer: int,
    estimate: Observation<G>,
    in_range: Seq<bool>,
    direct: Seq<G>,
    relayed: G,
    n: nat,
) -> Seq<Observation<G>>
    decreases n,
{
    if n == 0 {
        Seq::empty()
    } else {
        let j = n - 1;
        let before = sightings_upto(members, observer, estimate, in_range, direct, relayed, (n - 1) as nat);
        if j != observer {
            match sighting(members[observer], estimate, members[j], in_range[j], direct[j], relayed) {
                Some(o) => before.push(o),
                None => before,
            }
        } else {
            before
        }
    }
}

/// Appends to `cloud` what member `observer` reports of every other member,
/// in the order of the members. `in_range[j]` says whether member `j` is
/// within discovery range of the observer, `direct[j]` is the area the
/// observer would report member `j` in if it carries the application, and
/// `relayed` is the observer's own estimate widened by the discovery range.
pub fn report_sightings<G: Copy>(
    cloud: &mut Vec<Observation<G>>,
    members: &Vec<Member>,
    observer: usize,
    estimate: &Observation<G>,
    in_range: &Vec<bool>,
    direct: &Vec<G>,
    relayed: G,
)
    requires
        observer < members.len(),
        in_range.len() == members.len(),
        direct.len() == members.len(),
    ensures
        final(cloud)@ == old(cloud)@ + sightings_upto(
            members@,
            observer as int,
            *estimate,
            in_range@,
            direct@,
            relayed,
            members.len() as nat,
        ),
        (forall|j: int| 0 <= j < members.len() ==> (#[trigger] members@[j]).id == j) ==> forall|k: int|
            old(cloud).len() <= k < final(cloud).len() ==> {
                &&& (#[trigger] final(cloud)@[k]).valid()
                &&& members@[observer as int].app ==> final(cloud)@[k].area == direct@[final(cloud)@[k].id as int]
                &&& !members@[observer as int].app ==> final(cloud)@[k].area == relayed
            },
{
    let n = members.len();
    let me = members[observer];
    let ghost start = cloud@;
    let mut j: usize = 0;
    while j < n
        invariant
            n == members.len(),
            j <= n,
            observer < n,
            me == members@[observer as int],
            in_range.len() == n,
            direct.len() == n,
            cloud@ == start + sightings_upto(
                members@,
                observer as int,
                *estimate,
                in_range@,
                direct@,
                relayed,
                j as nat,
            ),
        decreases n - j,
    {
        let ghost before = cloud@;
        if j != observer {
            let seen = members[j];
            if in_range[j] && seen.discoverable && !seen.app {
                if me.app {
                    cloud.push(Observation::new(direct[j], seen.id));
                } else if me.discoverable && estimate.is_valid() {
                    cloud.push(Observation::new(relayed, seen.id));
                }
            }
        }
        j = j + 1;
        assert(cloud@ =~= start + sightings_upto(
            members@,
            observer as int,
            *estimate,
            in_range@,
            direct@,
            relayed,
            j as nat,
        ));
    }
    proof {
        assert(j == n);
        if forall|j: int| 0 <= j < members.len() ==> (#[trigger] members@[j]).id == j {
            let s = sightings_upto(members@, observer as int, *estimate, in_range@, direct@, relayed, n as nat);
            if me.app {
                lemma_app_observer_reports_direct(members@, observer as int, *estimate, in_range@, direct@, relayed, n as nat);
            } else {
                lemma_relaying_observer(members@, observer as int, *estimate, in_range@, direct@, relayed, n as nat);
            }
            assert forall|k: int| start.len() <= k < cloud.len() implies cloud@[k] == s[k - start.len()] by {}
        }
    }
}

/// Members carrying the application, and members that cannot be
/// discovered, are never reported by anybody; and nobody reports itself.
pub proof fn lemma_sightings_only_of_trackable<G>(
    members: Seq<Member>,
    observer: int,
    estimate: Observation<G>,
    in_range: Seq<bool>,
    direct: Seq<G>,
    relayed: G,
    n: nat,
)
    requires
        0 <= observer < members.len(),
        n <= members.len(),
        forall|j: int| 0 <= j < members.len() ==> (#[trigger] members[j]).id == j,
    ensures
        forall|k: int|
            0 <= k < sightings_upto(members, observer, estimate, in_range, direct, relayed, n).len()
                ==> {
                let o = #[trigger] sightings_upto(members, observer, estimate, in_range, direct, relayed, n)[k];
                &&& o.valid()
                &&& 0 <= o.id < n
                &&& o.id != observer
                &&& !members[o.id as int].app
                &&& members[o.id as int].discoverable
            },
    decreases n,
{
    if n > 0 {
        let j = n - 1;
        lemma_sightings_only_of_trackable(members, observer, estimate, in_range, direct, relayed, (n - 1) as nat);
        let before = sightings_upto(members, observer, estimate, in_range, direct, relayed, (n - 1) as nat);
        let after = sightings_upto(members, observer, estimate, in_range, direct, relayed, n);
        assert(members[j].id == j);
        assert forall|k: int| 0 <= k < after.len() implies {
            let o = #[trigger] after[k];
            &&& o.valid()
            &&& 0 <= o.id < n
            &&& o.id != observer
            &&& !members[o.id as int].app
            &&& members[o.id as int].discoverable
        } by {
            if k < before.len() {
                assert(after[k] == before[k]);
            }
        }
    }
}

/// An observer with the application reports every other discoverable member
/// without the application that is in range, each within `direct` of that
/// member, whatever its own estimate; and it reports nothing else.
pub proof fn lemma_app_observer_reports_direct<G>(
    members: Seq<Member>,
    observer: int,
    estimate: Observation<G>,
    in_range: Seq<bool>,
    direct: Seq<G>,
    relayed: G,
    n: nat,
)
    requires
        0 <= observer < members.len(),
        n <= members.len(),
        members[observer].app,
        forall|j: int| 0 <= j < members.len() ==> (#[trigger] members[j]).id == j,
    ensures
        ({
            let s = sightings_upto(members, observer, estimate, in_range, direct, relayed, n);
            &&& forall|k: int| 0 <= k < s.len() ==> {
                &&& (#[trigger] s[k]).valid()
                &&& s[k].area == direct[s[k].id as int]
            }
            &&& forall|j: int|
                0 <= j < n && j != observer && #[trigger] in_range[j] && members[j].discoverable
                    && !members[j].app ==> s.contains(
                    Observation { area: direct[j], id: j as usize, expired: false },
                )
        }),
    decreases n,
{
    if n > 0 {
        lemma_app_observer_reports_direct(members, observer, estimate, in_range, direct, relayed, (n - 1) as nat);
        let j = n - 1;
        let before = sightings_upto(members, observer, estimate, in_range, direct, relayed, (n - 1) as nat);
        let after = sightings_upto(members, observer, estimate, in_range, direct, relayed, n);
        assert(members[j].id == j);
        assert forall|k: int| 0 <= k < after.len() implies {
            &&& (#[trigger] after[k]).valid()
            &&& after[k].area == direct[after[k].id as int]
        } by {
            if k < before.len() {
                assert(after[k] == before[k]);
            }
        }
        assert forall|i: int|
            0 <= i < n && i != observer && #[trigger] in_range[i] && members[i].discoverable
                && !members[i].app implies after.contains(
            Observation { area: direct[i], id: i as usize, expired: false },
        ) by {
            if i < j {
                let o = Observation { area: direct[i], id: i as usize, expired: false };
                assert(before.contains(o));
                let w = choose|w: int| 0 <= w < before.len() && before[w] == o;
                assert(after[w] == o);
            } else {
                assert(after[after.len() - 1] == Observation { area: direct[i], id: i as usize, expired: false });
            }
        }
    }
}

/// An observer without the application reports only within `relayed`, its
/// own widened estimate; and, when it is discoverable and its estimate is in
/// use, it reports every other discoverable member without the application
/// that is in range.
pub proof fn lemma_relaying_observer<G>(
    members: Seq<Member>,
    observer: int,
    estimate: Observation<G>,
    in_range: Seq<bool>,
    direct: Seq<G>,
    relayed: G,
    n: nat,
)
    requires
        0 <= observer < members.len(),
        n <= members.len(),
        !members[observer].app,
        forall|j: int| 0 <= j < members.len() ==> (#[trigger] members[j]).id == j,
    ensures
        ({
            let s = sightings_upto(members, observer, estimate, in_range, direct, relayed, n);
            &&& forall|k: int| 0 <= k < s.len() ==> {
                &&& (#[trigger] s[k]).valid()
                &&& s[k].area == relayed
            }
            &&& members[observer].discoverable && estimate.valid() ==> forall|j: int|
                0 <= j < n && j != observer && #[trigger] in_range[j] && members[j].discoverable
                    && !members[j].app ==> s.contains(
                    Observation { area: relayed, id: j as usize, expired: false },
                )
        }),
    decreases n,
{
    if n > 0 {
        lemma_relaying_observer(members, observer, estimate, in_range, direct, relayed, (n - 1) as nat);
        let j = n - 1;
        let before = sightings_upto(members, observer, estimate, in_range, direct, relayed, (n - 1) as nat);
        let after = sightings_upto(members, observer, estimate, in_range, direct, relayed, n);
        assert(members[j].id == j);
        assert forall|k: int| 0 <= k < after.len() implies {
            &&& (#[trigger] after[k]).valid()
            &&& after[k].area == relayed
        } by {
            if k < before.len() {
                assert(after[k] == before[k]);
            }
        }
        if members[observer].discoverable && estimate.valid() {
            assert forall|i: int|
                0 <= i < n && i != observer && #[trigger] in_range[i] && members[i].discoverable
                    && !members[i].app implies after.contains(
                Observation { area: relayed, id: i as usize, expired: false },
            ) by {
                if i < j {
                    let o = Observation { area: relayed, id: i as usize, expired: false };
                    assert(before.contains(o));
                    let w = choose|w: int| 0 <= w < before.len() && before[w] == o;
                    assert(after[w] == o);
                } else {
                    assert(after[after.len() - 1] == Observation { area: relayed, id: i as usize, expired: false });
                }
            }
        }
    }
}

/// Reports come in the order of the members they locate: each member at most
/// once, earlier members first.
pub proof fn lemma_sightings_in_member_order<G>(
    members: Seq<Member>,
    observer: int,
    estimate: Observation<G>,
    in_range: Seq<bool>,
    direct: Seq<G>,
    relayed: G,
    n: nat,
)
    requires
        0 <= observer < members.len(),
        n <= members.len(),
        forall|j: int| 0 <= j < members.len() ==> (#[trigger] members[j]).id == j,
    ensures
        ({
            let s = sightings_upto(members, observer, estimate, in_range, direct, relayed, n);
            forall|a: int, b: int| 0 <= a < b < s.len() ==> (#[trigger] s[a]).id < (#[trigger] s[b]).id
        }),
    decreases n,
{
    if n > 0 {
        lemma_sightings_in_member_order(members, observer, estimate, in_range, direct, relayed, (n - 1) as nat);
        lemma_sightings_only_of_trackable(members, observer, estimate, in_range, direct, relayed, (n - 1) as nat);
        let j = n - 1;
        let before = sightings_upto(members, observer, estimate, in_range, direct, relayed, (n - 1) as nat);
        let after = sightings_upto(members, observer, estimate, in_range, direct, relayed, n);
        assert(members[j].id == j);
        assert forall|a: int, b: int| 0 <= a < b < after.len() implies (#[trigger] after[a]).id < (#[trigger] after[b]).id by {
            assert(after[a] == before[a]);
            if b < before.len() {
                assert(after[b] == before[b]);
            } else {
                assert(before[a].id < n - 1);
            }
        }
    }
}

/// An observer that neither carries the application nor holds an estimate in
/// use reports nothing.
pub proof fn lemma_no_estimate_no_relay<G>(
    members: Seq<Member>,
    observer: int,
    estimate: Observation<G>,
    in_range: Seq<bool>,
    direct: Seq<G>,
    relayed: G,
    n: nat,
)
    requires
        0 <= observer < members.len(),
        n <= members.len(),
        !members[observer].app,
        !estimate.valid(),
    ensures
        sightings_upto(members, observer, estimate, in_range, direct, relayed, n).len() == 0,
    decreases n,
{
    if n > 0 {
        lemma_no_estimate_no_relay(members, observer, estimate, in_range, direct, relayed, (n - 1) as nat);
    }
}

} // verus!
