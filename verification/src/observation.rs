use vstd::prelude::*;

verus! {

/// What is known of where one member of the crowd stands: an area of type
/// `G` (for the simulator, a disc given by its centre and radius), the id of
/// the member it locates, and whether it has been discarded.
#[derive(Clone, Copy, Debug, PartialEq)]
pub struct Observation<G> {
    pub area: G,
    pub id: usize,
    pub expired: bool,
}

impl<G> Observation<G> {
    /// An observation still in use.
    pub open spec fn valid(self) -> bool {
        !self.expired
    }

    /// The same observation, discarded.
    pub open spec fn discarded(self) -> Self {
        Observation { area: self.area, id: self.id, expired: true }
    }
}

/// The observation that overlaying `other` onto `current` gives, where the
/// geometric facts about the two areas are given as booleans: `apart` (the
/// areas do not meet), `nested` (one lies within the other), `current_larger`
/// (the area of `current` is the larger one), and `merged` is the area that
/// the two discs share when they cross.
pub open spec fn overlay_result<G>(
    current: Observation<G>,
    other: Observation<G>,
    apart: bool,
    nested: bool,
    current_larger: bool,
    blank: G,
    merged: G,
) -> Observation<G> {
    if current.id != other.id {
        Observation { area: blank, id: 0, expired: false }
    } else if apart {
        Observation { area: blank, id: 0, expired: true }
    } else if nested {
        if current_larger {
            Observation { area: other.area, id: other.id, expired: false }
        } else {
            Observation { area: current.area, id: current.id, expired: false }
        }
    } else {
        Observation { area: merged, id: current.id, expired: false }
    }
}

impl<G: Copy> Observation<G> {
    /// A fresh observation locating member `id` within `area`.
    pub fn new(area: G, id: usize) -> (o: Self)
        ensures
            o == (Observation { area, id, expired: false }),
    {
        Observation { area, id, expired: false }
    }

    /// The observation that locates nobody; `blank` is the empty area.
    pub fn empty(blank: G) -> (o: Self)
        ensures
            o == (Observation { area: blank, id: 0usize, expired: true }),
    {
        Observation { area: blank, id: 0, expired: true }
    }

    /// Whether the observation is still in use.
    pub fn is_valid(&self) -> (r: bool)
        ensures
            r == self.valid(),
    {
        !self.expired
    }

    /// Overlays `other` onto this observation.
    ///
    /// Two observations of different members cannot be combined: the result
    /// is then a fresh observation of member 0 over the `blank` area. Areas
    /// that do not meet give the empty observation; when one lies within the
    /// other the smaller one is kept; otherwise the result locates the same
    /// member within the `merged` area.
    pub fn overlays(
        &self,
        other: &Self,
        apart: bool,
        nested: bool,
        self_larger: bool,
        blank: G,
        merged: G,
    ) -> (r: Self)
        ensures
            r == overlay_result(*self, *other, apart, nested, self_larger, blank, merged),
    {
        if self.id != other.id {
            return Observation::new(blank, 0);
        }
        if apart {
            return Observation::empty(blank);
        }
        if nested {
            return if self_larger {
                Observation::new(other.area, other.id)
            } else {
                Observation::new(self.area, self.id)
            };
        }
        Observation::new(merged, self.id)
    }
}

/// A fresh observation is in use and locates the member it was made for;
/// the empty one is not in use.
pub proof fn lemma_new_and_empty<G>(area: G, id: usize, blank: G)
    ensures
        (Observation { area, id, expired: false }).valid(),
        !(Observation { area: blank, id: 0usize, expired: true }).valid(),
{
}

/// Overlaying two observations of the same member never yields an
/// observation in use of anybody else, and the result is out of use exactly
/// when the two areas do not meet.
pub proof fn lemma_overlay_keeps_member<G>(
    current: Observation<G>,
    other: Observation<G>,
    apart: bool,
    nested: bool,
    current_larger: bool,
    blank: G,
    merged: G,
)
    requires
        current.id == other.id,
    ensures
        ({
            let r = overlay_result(current, other, apart, nested, current_larger, blank, merged);
            &&& r.valid() ==> r.id == current.id
            &&& r.valid() <==> !apart
        }),
{
}

/// Two observations of the same member whose areas meet without one lying
/// inside the other combine into an observation in use of that member over
/// the shared area, whichever of the two areas is the larger.
pub proof fn lemma_overlay_crossing_takes_shared_area<G>(
    current: Observation<G>,
    other: Observation<G>,
    current_larger: bool,
    blank: G,
    merged: G,
)
    requires
        current.id == other.id,
    ensures
        overlay_result(current, other, false, false, current_larger, blank, merged)
            == (Observation { area: merged, id: current.id, expired: false }),
        overlay_result(current, other, false, false, true, blank, merged)
            == overlay_result(current, other, false, false, false, blank, merged),
{
}

/// When one area lies inside the other, the overlay keeps the smaller of the
/// two observations, in use: `other`'s if `current` is the larger, else
/// `current`'s; and it never takes the shared area.
pub proof fn lemma_overlay_nested_keeps_smaller<G>(
    current: Observation<G>,
    other: Observation<G>,
    current_larger: bool,
    blank: G,
    merged: G,
)
    requires
        current.id == other.id,
    ensures
        ({
            let r = overlay_result(current, other, false, true, current_larger, blank, merged);
            let smaller = if current_larger { other } else { current };
            &&& r.valid()
            &&& r.area == smaller.area
            &&& r.id == current.id
        }),
{
}

/// Overlaying observations of different members always gives an observation
/// in use: the combination is never discarded, only reset to member 0.
pub proof fn lemma_overlay_mismatch<G>(
    current: Observation<G>,
    other: Observation<G>,
    apart: bool,
    nested: bool,
    current_larger: bool,
    blank: G,
    merged: G,
)
    requires
        current.id != other.id,
    ensures
        overlay_result(current, other, apart, nested, current_larger, blank, merged)
            == (Observation { area: blank, id: 0usize, expired: false }),
{
}

/// The area of an overlay is always one of the areas it was given: the
/// blank one, either observation's own, or the shared one.
pub proof fn lemma_overlay_area<G>(
    current: Observation<G>,
    other: Observation<G>,
    apart: bool,
    nested: bool,
    current_larger: bool,
    blank: G,
    merged: G,
)
    ensures
        ({
            let a = overlay_result(current, other, apart, nested, current_larger, blank, merged).area;
            a == blank || a == current.area || a == other.area || a == merged
        }),
{
}

} // verus!
