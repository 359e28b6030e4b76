use crate::daf::{raw_view, DAFError, RawSummary};
use crate::ephemerides::SPK;
use crate::lookuptable::AniseError;
use crate::tree::RootCandidate;
use vstd::prelude::*;

verus! {

/// Orientation identifier of the J2000 inertial frame.
pub const J2000: i32 = 1;

/// Orientation identifier of the Ecliptic J2000 frame, whose rotation to J2000 is built in.
pub const ECLIPJ2000: i32 = 17;

/// Largest number of orientation kernels that an almanac holds.
pub const MAX_LOADED_BPCS: usize = 32;

/// An instant, as nanoseconds of Ephemeris Time past the J2000 reference epoch.
#[derive(Copy, Clone, Debug, PartialEq, Eq, Structural)]
pub struct Epoch {
    pub et_nanoseconds: i128,
}

/// A frame: the identifier of its origin body and the identifier of its orientation.
#[derive(Copy, Clone, Debug, PartialEq, Eq, Structural)]
pub struct Frame {
    pub ephemeris_id: i32,
    pub orientation_id: i32,
}

impl Frame {
    /// A frame from its origin and its orientation identifiers.
    pub fn from_ephem_orient(ephemeris_id: i32, orientation_id: i32) -> (r: Frame)
        ensures
            r == (Frame { ephemeris_id, orientation_id }),
    {
        Frame { ephemeris_id, orientation_id }
    }
}

/// The summary of one segment of a binary orientation kernel.
#[derive(Copy, Clone, Debug, PartialEq, Eq, Structural)]
pub struct BPCSummaryRecord {
    pub start_epoch: Epoch,
    pub end_epoch: Epoch,
    /// The frame whose orientation the segment gives.
    pub frame_id: i32,
    /// The inertial frame that the orientation is given against.
    pub inertial_frame_id: i32,
    pub data_type_i: i32,
    pub start_idx: i32,
    pub end_idx: i32,
}

impl BPCSummaryRecord {
    /// A summary that designates no data.
    pub open spec fn spec_is_empty(self) -> bool {
        self.start_idx == self.end_idx
    }

    /// The segment gives the orientation of `id` at `t`.
    pub open spec fn covers(self, id: i32, t: Epoch) -> bool {
        &&& self.frame_id == id
        &&& self.start_epoch.et_nanoseconds <= t.et_nanoseconds
        &&& t.et_nanoseconds <= self.end_epoch.et_nanoseconds
    }

    /// Whether this summary designates no data.
    pub fn is_empty(&self) -> (r: bool)
        ensures
            r == self.spec_is_empty(),
    {
        self.start_idx == self.end_idx
    }

    /// Whether the segment gives the orientation of `id` at `t`.
    pub fn covers_epoch(&self, id: i32, t: Epoch) -> (r: bool)
        ensures
            r == self.covers(id, t),
    {
        self.frame_id == id && self.start_epoch.et_nanoseconds <= t.et_nanoseconds
            && t.et_nanoseconds <= self.end_epoch.et_nanoseconds
    }
}

/// The segment that a stored orientation summary describes, with its coverage bounds: the
/// integers are frame, inertial frame, data type, start and end index, in that order.
pub open spec fn bpc_summary_of(raw: (Seq<u64>, Seq<i32>), start: Epoch, end: Epoch) -> Option<
    BPCSummaryRecord,
> {
    let ints = raw.1;
    if ints.len() < 5 || start.et_nanoseconds > end.et_nanoseconds || ints[3] < 1 || ints[4]
        < ints[3] {
        None
    } else {
        Some(
            BPCSummaryRecord {
                start_epoch: start,
                end_epoch: end,
                frame_id: ints[0],
                inertial_frame_id: ints[1],
                data_type_i: ints[2],
                start_idx: ints[3],
                end_idx: ints[4],
            },
        )
    }
}

impl BPCSummaryRecord {
    /// The segment that a stored summary describes, given the coverage bounds that its
    /// first two doubles hold.
    pub fn from_raw(raw: &RawSummary, start_epoch: Epoch, end_epoch: Epoch) -> (r: Result<
        BPCSummaryRecord,
        DAFError,
    >)
        ensures
            match r {
                Ok(s) => bpc_summary_of(raw_view(*raw), start_epoch, end_epoch) == Some(s),
                Err(e) => bpc_summary_of(raw_view(*raw), start_epoch, end_epoch) is None && e
                    == DAFError::MalformedSummary,
            },
    {
        let ints = &raw.ints;
        if ints.len() < 5 || start_epoch.et_nanoseconds > end_epoch.et_nanoseconds || ints[3] < 1
            || ints[4] < ints[3] {
            return Err(DAFError::MalformedSummary);
        }
        Ok(
            BPCSummaryRecord {
                start_epoch,
                end_epoch,
                frame_id: ints[0],
                inertial_frame_id: ints[1],
                data_type_i: ints[2],
                start_idx: ints[3],
                end_idx: ints[4],
            },
        )
    }
}

impl RootCandidate for BPCSummaryRecord {
    /// The inertial frame of a summary that designates data.
    open spec fn root_candidate(&self) -> Option<i32> {
        if self.spec_is_empty() {
            None
        } else {
            Some(self.inertial_frame_id)
        }
    }
}

/// A loaded binary orientation kernel, as the ordered list of its segment summaries.
#[derive(Debug)]
pub struct BPC {
    pub summaries: Vec<BPCSummaryRecord>,
}

/// The planetary constants of one body, as far as the frame tree reads them.
#[derive(Copy, Clone, Debug, PartialEq, Eq, Structural)]
pub struct PlanetaryData {
    pub id: i32,
    /// The frame that this body's orientation is given against.
    pub parent_id: i32,
}

/// Errors of orientation queries.
#[derive(Copy, Clone, Debug, PartialEq, Eq, Structural)]
pub enum OrientationError {
    /// Neither an orientation kernel nor planetary constants are loaded.
    NoOrientationsLoaded,
    /// Orientation data are loaded, but no summary designates data and no planetary
    /// constants name a parent, so the tree has no root.
    NoOrientationRoot,
    /// No loaded segment gives the orientation of `id` at `epoch`, and no planetary
    /// constants give its parent.
    OutOfCoverage { id: i32, epoch: Epoch },
    /// The path to the root has more hops than the tree may hold.
    MaxRecursionDepth,
    /// The two frames share no common node.
    RotationOrigin { from: Frame, to: Frame, epoch: Epoch },
}

/// The data that queries are answered from: ephemeris and orientation kernels, each kind
/// in load order, and the planetary constants.
pub struct Almanac {
    pub spk_data: Vec<SPK>,
    pub bpc_data: Vec<BPC>,
    pub planetary_data: Vec<PlanetaryData>,
}

impl Almanac {
    /// The kernels' summaries, as mathematical sequences, in load order.
    pub open spec fn bpcs(self) -> Seq<Seq<BPCSummaryRecord>> {
        self.bpc_data@.map_values(|b: BPC| b.summaries@)
    }

    /// An almanac with nothing loaded.
    pub fn new() -> (r: Almanac)
        ensures
            r.bpcs() == Seq::<Seq<BPCSummaryRecord>>::empty(),
            r.planetary_data@ == Seq::<PlanetaryData>::empty(),
            r.spk_data@ == Seq::<SPK>::empty(),
    {
        let r = Almanac { spk_data: Vec::new(), bpc_data: Vec::new(), planetary_data: Vec::new() };
        assert(r.bpcs() =~= Seq::<Seq<BPCSummaryRecord>>::empty());
        r
    }

    /// Loads an orientation kernel after those already loaded, so that it takes precedence
    /// where coverages overlap; fails when all slots are taken.
    pub fn load_bpc(&mut self, bpc: BPC) -> (r: Result<(), AniseError>)
        ensures
            r is Ok <==> old(self).bpc_data@.len() < MAX_LOADED_BPCS,
            r is Ok ==> final(self).bpcs() == old(self).bpcs().push(bpc.summaries@),
            r is Err ==> final(self).bpcs() == old(self).bpcs(),
            final(self).planetary_data@ == old(self).planetary_data@,
            final(self).spk_data@ == old(self).spk_data@,
    {
        if self.bpc_data.len() >= MAX_LOADED_BPCS {
            return Err(AniseError::StructureIsFull);
        }
        let ghost summaries = bpc.summaries@;
        self.bpc_data.push(bpc);
        assert(self.bpcs() =~= old(self).bpcs().push(summaries));
        Ok(())
    }

    /// Unloads the orientation kernel loaded last, if any, and returns it.
    pub fn unload_last_bpc(&mut self) -> (r: Option<BPC>)
        ensures
            old(self).bpc_data@.len() == 0 ==> r is None && final(self).bpcs() == old(self).bpcs(),
            old(self).bpc_data@.len() > 0 ==> r is Some && final(self).bpcs() == old(
                self,
            ).bpcs().drop_last() && r->Some_0.summaries@ == old(self).bpcs().last(),
            final(self).planetary_data@ == old(self).planetary_data@,
            final(self).spk_data@ == old(self).spk_data@,
    {
        let r = self.bpc_data.pop();
        assert(self.bpcs() =~= old(self).bpcs().take(self.bpc_data@.len() as int));
        r
    }

    /// Sets the planetary constants that orientations fall back on.
    pub fn set_planetary_data(&mut self, data: Vec<PlanetaryData>)
        ensures
            final(self).planetary_data@ == data@,
            final(self).bpcs() == old(self).bpcs(),
            final(self).spk_data@ == old(self).spk_data@,
    {
        self.planetary_data = data;
    }

    /// Some loaded segment gives the orientation of `id` at `t`.
    pub open spec fn any_covers(self, id: i32, t: Epoch) -> bool {
        exists|f: int, s: int|
            0 <= f < self.bpcs().len() && 0 <= s < self.bpcs()[f].len() && (
            #[trigger] self.bpcs()[f][s]).covers(id, t)
    }

    /// Summary `s` of kernel `f` is the one chosen for `id` at `t`: it covers them, no
    /// kernel loaded later covers them, and no earlier summary of the same kernel does.
    pub open spec fn is_selected(self, id: i32, t: Epoch, f: int, s: int) -> bool {
        &&& 0 <= f < self.bpcs().len()
        &&& 0 <= s < self.bpcs()[f].len()
        &&& self.bpcs()[f][s].covers(id, t)
        &&& forall|g: int, x: int|
            f < g < self.bpcs().len() && 0 <= x < self.bpcs()[g].len() ==> !(
            #[trigger] self.bpcs()[g][x]).covers(id, t)
        &&& forall|x: int| 0 <= x < s ==> !(#[trigger] self.bpcs()[f][x]).covers(id, t)
    }

    /// The inertial frame of the chosen segment for `id` at `t`.
    pub open spec fn selected_parent(self, id: i32, t: Epoch) -> i32 {
        let (f, s) = choose|f: int, s: int| self.is_selected(id, t, f, s);
        self.bpcs()[f][s].inertial_frame_id
    }

    /// Entry `i` is the first planetary-constants entry of `id`.
    pub open spec fn is_first_planetary(self, id: i32, i: int) -> bool {
        &&& 0 <= i < self.planetary_data@.len()
        &&& self.planetary_data@[i].id == id
        &&& forall|j: int| 0 <= j < i ==> (#[trigger] self.planetary_data@[j]).id != id
    }

    /// The planetary constants hold `id`.
    pub open spec fn has_planetary(self, id: i32) -> bool {
        exists|i: int|
            0 <= i < self.planetary_data@.len() && (#[trigger] self.planetary_data@[i]).id == id
    }

    /// The frame that `id` is oriented against at `t`: by the chosen segment if one covers
    /// `t`, else by its planetary constants.
    pub open spec fn parent_of(self, id: i32, t: Epoch) -> Option<i32> {
        if self.any_covers(id, t) {
            Some(self.selected_parent(id, t))
        } else if self.has_planetary(id) {
            let i = choose|i: int| self.is_first_planetary(id, i);
            Some(self.planetary_data@[i].parent_id)
        } else {
            None
        }
    }

    /// Returns the summary that gives the orientation of `id` at `t`, with the index of its
    /// kernel and its index in that kernel. Kernels are visited from the last loaded, and
    /// summaries in file order: the first that covers wins.
    pub fn bpc_summary_at_epoch(&self, id: i32, t: Epoch) -> (r: Result<
        (BPCSummaryRecord, usize, usize),
        OrientationError,
    >)
        ensures
            match r {
                Ok((summary, f, s)) => self.is_selected(id, t, f as int, s as int) && summary
                    == self.bpcs()[f as int][s as int],
                Err(e) => !self.any_covers(id, t) && e == (OrientationError::OutOfCoverage {
                    id,
                    epoch: t,
                }),
            },
    {
        let mut f: usize = self.bpc_data.len();
        while f > 0
            invariant
                f <= self.bpc_data@.len(),
                forall|g: int, x: int|
                    f <= g < self.bpcs().len() && 0 <= x < self.bpcs()[g].len() ==> !(
                    #[trigger] self.bpcs()[g][x]).covers(id, t),
            decreases f,
        {
            f -= 1;
            let summaries = &self.bpc_data[f].summaries;
            assert(summaries@ == self.bpcs()[f as int]);
            let mut s: usize = 0;
            while s < summaries.len()
                invariant
                    f < self.bpc_data@.len(),
                    summaries@ == self.bpcs()[f as int],
                    s <= summaries@.len(),
                    forall|x: int| 0 <= x < s ==> !(#[trigger] self.bpcs()[f as int][x]).covers(id, t),
                    forall|g: int, x: int|
                        f < g < self.bpcs().len() && 0 <= x < self.bpcs()[g].len() ==> !(
                        #[trigger] self.bpcs()[g][x]).covers(id, t),
                decreases summaries.len() - s,
            {
                if summaries[s].covers_epoch(id, t) {
                    return Ok((summaries[s], f, s));
                }
                s += 1;
            }
        }
        Err(OrientationError::OutOfCoverage { id, epoch: t })
    }

    /// Returns the parent of `id` in the planetary constants: that of its first entry.
    pub fn planetary_parent(&self, id: i32) -> (r: Option<i32>)
        ensures
            match r {
                Some(p) => exists|i: int| self.is_first_planetary(id, i) && p == self.planetary_data@[i].parent_id,
                None => !self.has_planetary(id),
            },
    {
        let mut i: usize = 0;
        while i < self.planetary_data.len()
            invariant
                i <= self.planetary_data@.len(),
                forall|j: int| 0 <= j < i ==> (#[trigger] self.planetary_data@[j]).id != id,
            decreases self.planetary_data.len() - i,
        {
            if self.planetary_data[i].id == id {
                assert(self.is_first_planetary(id, i as int));
                return Some(self.planetary_data[i].parent_id);
            }
            i += 1;
        }
        None
    }
}

/// The kernel loaded last wins: once a kernel is loaded after the others, a query that one
/// of its segments covers is answered by its first covering segment, and any other query
/// is answered as before. Unloading it gives back the earlier kernels, and with them the
/// earlier answers.
pub proof fn lemma_last_loaded_wins(
    before: Almanac,
    after: Almanac,
    k: Seq<BPCSummaryRecord>,
    id: i32,
    t: Epoch,
    f: int,
    s: int,
)
    requires
        after.bpcs() == before.bpcs().push(k),
    ensures
        (exists|x: int| 0 <= x < k.len() && (#[trigger] k[x]).covers(id, t)) ==> (after.is_selected(
            id,
            t,
            f,
            s,
        ) <==> (f == before.bpcs().len() && 0 <= s < k.len() && k[s].covers(id, t) && forall|
            x: int,
        | 0 <= x < s ==> !(#[trigger] k[x]).covers(id, t))),
        !(exists|x: int| 0 <= x < k.len() && (#[trigger] k[x]).covers(id, t)) ==> (after.is_selected(
            id,
            t,
            f,
            s,
        ) <==> before.is_selected(id, t, f, s)),
        after.bpcs().drop_last() == before.bpcs(),
{
    let n = before.bpcs().len();
    assert(after.bpcs().drop_last() =~= before.bpcs());
    assert(after.bpcs()[n as int] == k);
    assert forall|g: int| 0 <= g < n implies #[trigger] after.bpcs()[g] == before.bpcs()[g] by {}
    if exists|x: int| 0 <= x < k.len() && (#[trigger] k[x]).covers(id, t) {
        let x = choose|x: int| 0 <= x < k.len() && (#[trigger] k[x]).covers(id, t);
        if after.is_selected(id, t, f, s) && f < n {
            assert(!after.bpcs()[n as int][x].covers(id, t));
        }
    } else {
        if after.is_selected(id, t, f, s) && f == n {
            assert(k[s].covers(id, t));
        }
    }
}

} // verus!
