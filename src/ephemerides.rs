use crate::almanac::{Almanac, Epoch, Frame};
use crate::daf::{raw_view, DAFError, RawSummary};
use crate::lookuptable::AniseError;
use crate::tree::{
    after, common_nodes, common_of_paths, file_candidates, holds_path, is_prefix,
    lemma_prefix_contains, lemma_seen_prefix, min_abs_first, root_of, scan_step,
    summary_candidates, RootCandidate, MAX_TREE_DEPTH,
};
use vstd::prelude::*;

verus! {

/// Identifier of the Solar System barycenter.
pub const SSB: i32 = 0;

/// Largest number of ephemeris kernels that an almanac holds.
pub const MAX_LOADED_SPKS: usize = 32;

/// The summary of one segment of an ephemeris kernel.
#[derive(Copy, Clone, Debug, PartialEq, Eq, Structural)]
pub struct SPKSummaryRecord {
    pub start_epoch: Epoch,
    pub end_epoch: Epoch,
    /// The body whose position the segment gives.
    pub target_id: i32,
    /// The body that the position is given from.
    pub center_id: i32,
    pub frame_id: i32,
    pub data_type_i: i32,
    pub start_idx: i32,
    pub end_idx: i32,
}

impl SPKSummaryRecord {
    /// A summary that designates no data.
    pub open spec fn spec_is_empty(self) -> bool {
        self.start_idx == self.end_idx
    }

    /// The segment gives the position of `id` at `t`.
    pub open spec fn covers(self, id: i32, t: Epoch) -> bool {
        &&& self.target_id == id
        &&& self.start_epoch.et_nanoseconds <= t.et_nanoseconds
        &&& t.et_nanoseconds <= self.end_epoch.et_nanoseconds
    }

    /// Whether this summary designates no data.
    pub fn is_empty(&self) -> (r: bool)
        ensures
            r == self.spec_is_empty(),
    {
        self.start_idx == self.end_idx
    }

    /// Whether the segment gives the position of `id` at `t`.
    pub fn covers_epoch(&self, id: i32, t: Epoch) -> (r: bool)
        ensures
            r == self.covers(id, t),
    {
        self.target_id == id && self.start_epoch.et_nanoseconds <= t.et_nanoseconds
            && t.et_nanoseconds <= self.end_epoch.et_nanoseconds
    }
}

impl RootCandidate for SPKSummaryRecord {
    /// The center of a summary that designates data.
    open spec fn root_candidate(&self) -> Option<i32> {
        if self.spec_is_empty() {
            None
        } else {
            Some(self.center_id)
        }
    }
}

/// The segment that a stored ephemeris summary describes, with its coverage bounds: the
/// integers are target, center, frame, data type, start and end index, in that order.
pub open spec fn spk_summary_of(raw: (Seq<u64>, Seq<i32>), start: Epoch, end: Epoch) -> Option<
    SPKSummaryRecord,
> {
    let ints = raw.1;
    if ints.len() < 6 || start.et_nanoseconds > end.et_nanoseconds || ints[4] < 1 || ints[5]
        < ints[4] {
        None
    } else {
        Some(
            SPKSummaryRecord {
                start_epoch: start,
                end_epoch: end,
                target_id: ints[0],
                center_id: ints[1],
                frame_id: ints[2],
                data_type_i: ints[3],
                start_idx: ints[4],
                end_idx: ints[5],
            },
        )
    }
}

impl SPKSummaryRecord {
    /// The segment that a stored summary describes, given the coverage bounds that its
    /// first two doubles hold.
    pub fn from_raw(raw: &RawSummary, start_epoch: Epoch, end_epoch: Epoch) -> (r: Result<
        SPKSummaryRecord,
        DAFError,
    >)
        ensures
            match r {
                Ok(s) => spk_summary_of(raw_view(*raw), start_epoch, end_epoch) == Some(s),
                Err(e) => spk_summary_of(raw_view(*raw), start_epoch, end_epoch) is None && e
                    == DAFError::MalformedSummary,
            },
    {
        let ints = &raw.ints;
        if ints.len() < 6 || start_epoch.et_nanoseconds > end_epoch.et_nanoseconds || ints[4] < 1
            || ints[5] < ints[4] {
            return Err(DAFError::MalformedSummary);
        }
        Ok(
            SPKSummaryRecord {
                start_epoch,
                end_epoch,
                target_id: ints[0],
                center_id: ints[1],
                frame_id: ints[2],
                data_type_i: ints[3],
                start_idx: ints[4],
                end_idx: ints[5],
            },
        )
    }
}

/// A loaded ephemeris kernel, as the ordered list of its segment summaries.
#[derive(Debug)]
pub struct SPK {
    pub summaries: Vec<SPKSummaryRecord>,
}

/// Errors of ephemeris queries.
#[derive(Copy, Clone, Debug, PartialEq, Eq, Structural)]
pub enum EphemerisError {
    /// No ephemeris kernel is loaded.
    NoEphemerisLoaded,
    /// Ephemeris kernels are loaded, but none of their summaries designates data, so the
    /// tree has no root.
    NoEphemerisRoot,
    /// No loaded segment gives the position of `id` at `epoch`.
    OutOfCoverage { id: i32, epoch: Epoch },
    /// The path to the root has more hops than the tree may hold.
    MaxRecursionDepth,
    /// The two frames share no common origin.
    TranslationOrigin { from: Frame, to: Frame, epoch: Epoch },
}

/// Selection picks one summary at most.
pub proof fn lemma_spk_selected_unique(
    alm: Almanac,
    id: i32,
    t: Epoch,
    f1: int,
    s1: int,
    f2: int,
    s2: int,
)
    requires
        alm.is_spk_selected(id, t, f1, s1),
        alm.is_spk_selected(id, t, f2, s2),
    ensures
        f1 == f2 && s1 == s2,
{
    if f1 < f2 {
        assert(!alm.spks()[f2][s2].covers(id, t));
    } else if f2 < f1 {
        assert(!alm.spks()[f1][s1].covers(id, t));
    } else if s1 < s2 {
        assert(!alm.spks()[f2][s1].covers(id, t));
    } else if s2 < s1 {
        assert(!alm.spks()[f1][s2].covers(id, t));
    }
}

/// The ephemeris kernel loaded last wins: once a kernel is loaded after the others, a query
/// that one of its segments covers is answered by its first covering segment, and any other
/// query is answered as before. Unloading it gives back the earlier kernels, and with them
/// the earlier answers.
pub proof fn lemma_last_loaded_spk_wins(
    before: Almanac,
    after: Almanac,
    k: Seq<SPKSummaryRecord>,
    id: i32,
    t: Epoch,
    f: int,
    s: int,
)
    requires
        after.spks() == before.spks().push(k),
    ensures
        (exists|x: int| 0 <= x < k.len() && (#[trigger] k[x]).covers(id, t)) ==> (
        after.is_spk_selected(id, t, f, s) <==> (f == before.spks().len() && 0 <= s < k.len()
            && k[s].covers(id, t) && forall|x: int| 0 <= x < s ==> !(#[trigger] k[x]).covers(id, t))),
        !(exists|x: int| 0 <= x < k.len() && (#[trigger] k[x]).covers(id, t)) ==> (
        after.is_spk_selected(id, t, f, s) <==> before.is_spk_selected(id, t, f, s)),
        after.spks().drop_last() == before.spks(),
{
    let n = before.spks().len();
    assert(after.spks().drop_last() =~= before.spks());
    assert(after.spks()[n as int] == k);
    assert forall|g: int| 0 <= g < n implies #[trigger] after.spks()[g] == before.spks()[g] by {}
    if exists|x: int| 0 <= x < k.len() && (#[trigger] k[x]).covers(id, t) {
        let x = choose|x: int| 0 <= x < k.len() && (#[trigger] k[x]).covers(id, t);
        if after.is_spk_selected(id, t, f, s) && f < n {
            assert(!after.spks()[n as int][x].covers(id, t));
        }
    } else {
        if after.is_spk_selected(id, t, f, s) && f == n {
            assert(k[s].covers(id, t));
        }
    }
}

impl Almanac {
    /// The ephemeris kernels' summaries, as mathematical sequences, in load order.
    pub open spec fn spks(self) -> Seq<Seq<SPKSummaryRecord>> {
        self.spk_data@.map_values(|k: SPK| k.summaries@)
    }

    /// Some loaded segment gives the position of `id` at `t`.
    pub open spec fn any_spk_covers(self, id: i32, t: Epoch) -> bool {
        exists|f: int, s: int|
            0 <= f < self.spks().len() && 0 <= s < self.spks()[f].len() && (
            #[trigger] self.spks()[f][s]).covers(id, t)
    }

    /// Summary `s` of ephemeris kernel `f` is the one chosen for `id` at `t`: it covers
    /// them, no kernel loaded later covers them, and no earlier summary of the same kernel
    /// does.
    pub open spec fn is_spk_selected(self, id: i32, t: Epoch, f: int, s: int) -> bool {
        &&& 0 <= f < self.spks().len()
        &&& 0 <= s < self.spks()[f].len()
        &&& self.spks()[f][s].covers(id, t)
        &&& forall|g: int, x: int|
            f < g < self.spks().len() && 0 <= x < self.spks()[g].len() ==> !(
            #[trigger] self.spks()[g][x]).covers(id, t)
        &&& forall|x: int| 0 <= x < s ==> !(#[trigger] self.spks()[f][x]).covers(id, t)
    }

    /// The center of the chosen segment for `id` at `t`, if one covers them.
    pub open spec fn center_of(self, id: i32, t: Epoch) -> Option<i32> {
        if self.any_spk_covers(id, t) {
            let (f, s) = choose|f: int, s: int| self.is_spk_selected(id, t, f, s);
            Some(self.spks()[f][s].center_id)
        } else {
            None
        }
    }

    /// The root of the ephemeris tree: the Solar System barycenter when it appears among
    /// the centers, else the first center of least absolute identifier; none without
    /// centers.
    pub open spec fn ephemeris_root(self) -> Option<i32> {
        root_of(file_candidates(self.spks(), 0), SSB)
    }

    /// The walk up the ephemeris tree from `cur` until `root`, in at most `fuel` hops.
    pub open spec fn ephemeris_walk(self, cur: i32, t: Epoch, root: i32, fuel: nat) -> Result<
        Seq<i32>,
        EphemerisError,
    >
        decreases fuel,
    {
        if fuel == 0 {
            Err(EphemerisError::MaxRecursionDepth)
        } else {
            match self.center_of(cur, t) {
                None => Err(EphemerisError::OutOfCoverage { id: cur, epoch: t }),
                Some(c) => if c == root {
                    Ok(seq![c])
                } else {
                    after(seq![c], self.ephemeris_walk(c, t, root, (fuel - 1) as nat))
                },
            }
        }
    }

    /// Why the ephemeris tree has no root: nothing is loaded, or nothing loaded names a
    /// center.
    pub open spec fn ephemeris_root_error(self) -> EphemerisError {
        if self.spk_data@.len() == 0 {
            EphemerisError::NoEphemerisLoaded
        } else {
            EphemerisError::NoEphemerisRoot
        }
    }

    /// The path from `source` to the root of the ephemeris tree: each body's center in
    /// turn, the root last.
    pub open spec fn ephemeris_path(self, source: i32, t: Epoch) -> Result<Seq<i32>, EphemerisError> {
        match self.ephemeris_root() {
            None => Err(self.ephemeris_root_error()),
            Some(root) => if source == root {
                Ok(seq![])
            } else {
                self.ephemeris_walk(source, t, root, MAX_TREE_DEPTH as nat)
            },
        }
    }

    /// The common ephemeris path of two frames (see [common_nodes]); frames of one origin
    /// have an empty path, and that origin is their common node.
    pub open spec fn common_ephemeris(self, from: Frame, to: Frame, t: Epoch) -> Result<
        (Seq<i32>, i32),
        EphemerisError,
    > {
        if from.ephemeris_id == to.ephemeris_id {
            Ok((seq![], from.ephemeris_id))
        } else {
            match self.ephemeris_path(from.ephemeris_id, t) {
                Err(e) => Err(e),
                Ok(fp) => match self.ephemeris_path(to.ephemeris_id, t) {
                    Err(e) => Err(e),
                    Ok(tp) => match common_nodes(fp, tp, from.ephemeris_id, to.ephemeris_id) {
                        Some(c) => Ok(c),
                        None => Err(EphemerisError::TranslationOrigin { from, to, epoch: t }),
                    },
                },
            }
        }
    }

    /// Loads an ephemeris kernel after those already loaded, so that it takes precedence
    /// where coverages overlap; fails when all slots are taken.
    pub fn load_spk(&mut self, spk: SPK) -> (r: Result<(), AniseError>)
        ensures
            r is Ok <==> old(self).spk_data@.len() < MAX_LOADED_SPKS,
            r is Ok ==> final(self).spks() == old(self).spks().push(spk.summaries@),
            r is Err ==> final(self).spks() == old(self).spks(),
            final(self).bpc_data@ == old(self).bpc_data@,
            final(self).planetary_data@ == old(self).planetary_data@,
    {
        if self.spk_data.len() >= MAX_LOADED_SPKS {
            return Err(AniseError::StructureIsFull);
        }
        let ghost summaries = spk.summaries@;
        self.spk_data.push(spk);
        assert(self.spks() =~= old(self).spks().push(summaries));
        Ok(())
    }

    /// Unloads the ephemeris kernel loaded last, if any, and returns it.
    pub fn unload_last_spk(&mut self) -> (r: Option<SPK>)
        ensures
            old(self).spk_data@.len() == 0 ==> r is None && final(self).spks() == old(self).spks(),
            old(self).spk_data@.len() > 0 ==> r is Some && final(self).spks() == old(
                self,
            ).spks().drop_last() && r->Some_0.summaries@ == old(self).spks().last(),
            final(self).bpc_data@ == old(self).bpc_data@,
            final(self).planetary_data@ == old(self).planetary_data@,
    {
        let r = self.spk_data.pop();
        assert(self.spks() =~= old(self).spks().take(self.spk_data@.len() as int));
        r
    }

    /// Returns the summary that gives the position of `id` at `t`, with the index of its
    /// kernel and its index in that kernel. Kernels are visited from the last loaded, and
    /// summaries in file order: the first that covers wins.
    pub fn spk_summary_at_epoch(&self, id: i32, t: Epoch) -> (r: Result<
        (SPKSummaryRecord, usize, usize),
        EphemerisError,
    >)
        ensures
            match r {
                Ok((summary, f, s)) => self.is_spk_selected(id, t, f as int, s as int) && summary
                    == self.spks()[f as int][s as int],
                Err(e) => !self.any_spk_covers(id, t) && e == (EphemerisError::OutOfCoverage {
                    id,
                    epoch: t,
                }),
            },
    {
        let mut f: usize = self.spk_data.len();
        while f > 0
            invariant
                f <= self.spk_data@.len(),
                forall|g: int, x: int|
                    f <= g < self.spks().len() && 0 <= x < self.spks()[g].len() ==> !(
                    #[trigger] self.spks()[g][x]).covers(id, t),
            decreases f,
        {
            f -= 1;
            let summaries = &self.spk_data[f].summaries;
            assert(summaries@ == self.spks()[f as int]);
            let mut s: usize = 0;
            while s < summaries.len()
                invariant
                    f < self.spk_data@.len(),
                    summaries@ == self.spks()[f as int],
                    s <= summaries@.len(),
                    forall|x: int| 0 <= x < s ==> !(#[trigger] self.spks()[f as int][x]).covers(id, t),
                    forall|g: int, x: int|
                        f < g < self.spks().len() && 0 <= x < self.spks()[g].len() ==> !(
                        #[trigger] self.spks()[g][x]).covers(id, t),
                decreases summaries.len() - s,
            {
                if summaries[s].covers_epoch(id, t) {
                    return Ok((summaries[s], f, s));
                }
                s += 1;
            }
        }
        Err(EphemerisError::OutOfCoverage { id, epoch: t })
    }

    /// Returns the center of `id` at `t`, from the chosen segment.
    pub fn center_at_epoch(&self, id: i32, t: Epoch) -> (r: Result<i32, EphemerisError>)
        ensures
            match r {
                Ok(c) => self.center_of(id, t) == Some(c),
                Err(e) => self.center_of(id, t) is None && e == (EphemerisError::OutOfCoverage {
                    id,
                    epoch: t,
                }),
            },
    {
        let (summary, f, s) = self.spk_summary_at_epoch(id, t)?;
        proof {
            let (f2, s2) = choose|f2: int, s2: int| self.is_spk_selected(id, t, f2, s2);
            lemma_spk_selected_unique(*self, id, t, f as int, s as int, f2, s2);
        }
        Ok(summary.center_id)
    }

    /// Returns the root of all loaded ephemerides, typically the Solar System barycenter.
    #[verifier::loop_isolation(false)]
    pub fn try_find_ephemeris_root(&self) -> (r: Result<i32, EphemerisError>)
        ensures
            match r {
                Ok(root) => self.ephemeris_root() == Some(root),
                Err(e) => self.ephemeris_root() is None && e == self.ephemeris_root_error(),
            },
            r == Err::<i32, EphemerisError>(EphemerisError::NoEphemerisLoaded) <==> self.spk_data@.len()
                == 0,
    {
        let ghost files = self.spks();
        let ghost all = file_candidates(files, 0);
        let ghost mut seen: Seq<i32> = seq![];
        assert(is_prefix(all, all)) by {
            assert(all.subrange(0, all.len() as int) =~= all);
        }
        let mut found = false;
        let mut best: i32 = 0;
        let mut f: usize = self.spk_data.len();
        while f > 0
            invariant
                f <= files.len(),
                seen == file_candidates(files, f as int),
                found == (seen.len() > 0),
                found ==> best == min_abs_first(seen),
                !seen.contains(SSB),
            decreases f,
        {
            f -= 1;
            let summaries = &self.spk_data[f].summaries;
            assert(summaries@ == files[f as int]);
            let ghost before = seen;
            let mut s: usize = 0;
            while s < summaries.len()
                invariant
                    f < files.len(),
                    summaries@ == files[f as int],
                    s <= summaries@.len(),
                    before == file_candidates(files, f as int + 1),
                    seen == before + summary_candidates(summaries@.subrange(0, s as int)),
                    found == (seen.len() > 0),
                    found ==> best == min_abs_first(seen),
                    !seen.contains(SSB),
                decreases summaries.len() - s,
            {
                let summary = summaries[s];
                let ghost prefix = summaries@.subrange(0, s as int + 1);
                assert(prefix.drop_last() =~= summaries@.subrange(0, s as int));
                if !summary.is_empty() {
                    let x = summary.center_id;
                    let ghost old_seen = seen;
                    proof {
                        seen = seen.push(x);
                        assert(seen =~= before + summary_candidates(prefix));
                        lemma_seen_prefix(files, f as int, s as int + 1, all);
                    }
                    if x == SSB {
                        proof {
                            assert(seen[seen.len() - 1] == SSB);
                            lemma_prefix_contains(seen, all, SSB);
                        }
                        return Ok(SSB);
                    }
                    best = scan_step(found, best, x, Ghost(old_seen));
                    found = true;
                } else {
                    assert(before + summary_candidates(prefix) =~= seen);
                }
                s += 1;
            }
            assert(summaries@.subrange(0, s as int) =~= summaries@);
        }
        proof {
            assert(seen =~= all);
        }
        if !found {
            if self.spk_data.len() == 0 {
                return Err(EphemerisError::NoEphemerisLoaded);
            }
            return Err(EphemerisError::NoEphemerisRoot);
        }
        Ok(best)
    }

    /// Returns the path from the origin of `source` to the root of the loaded ephemerides,
    /// as its number of hops and the bodies, without the origin itself.
    #[verifier::loop_isolation(false)]
    pub fn ephemeris_path_to_root(&self, source: Frame, epoch: Epoch) -> (r: Result<
        (usize, [Option<i32>; MAX_TREE_DEPTH]),
        EphemerisError,
    >)
        ensures
            match (r, self.ephemeris_path(source.ephemeris_id, epoch)) {
                (Ok((len, path)), Ok(s)) => holds_path(len, path, s),
                (Err(e), Err(e2)) => e == e2,
                _ => false,
            },
    {
        let common_center = self.try_find_ephemeris_root()?;
        let mut of_path: [Option<i32>; MAX_TREE_DEPTH] = [None; MAX_TREE_DEPTH];
        let mut of_path_len: usize = 0;
        if common_center == source.ephemeris_id {
            return Ok((of_path_len, of_path));
        }
        let mut center_id = source.ephemeris_id;
        let ghost mut prefix: Seq<i32> = seq![];
        assert(after(prefix, self.ephemeris_walk(center_id, epoch, common_center, 8)) =~= self.ephemeris_path(
            source.ephemeris_id,
            epoch,
        )) by {
            match self.ephemeris_walk(center_id, epoch, common_center, 8) {
                Ok(s2) => {
                    assert(prefix + s2 =~= s2);
                },
                Err(_) => {},
            }
        }
        while of_path_len < MAX_TREE_DEPTH
            invariant
                of_path_len <= MAX_TREE_DEPTH,
                holds_path(of_path_len, of_path, prefix),
                center_id != common_center,
                self.ephemeris_root() == Some(common_center),
                self.ephemeris_path(source.ephemeris_id, epoch) == after(
                    prefix,
                    self.ephemeris_walk(
                        center_id,
                        epoch,
                        common_center,
                        (MAX_TREE_DEPTH - of_path_len) as nat,
                    ),
                ),
            decreases MAX_TREE_DEPTH - of_path_len,
        {
            let ghost fuel = (MAX_TREE_DEPTH - of_path_len) as nat;
            center_id = self.center_at_epoch(center_id, epoch)?;
            of_path[of_path_len] = Some(center_id);
            of_path_len += 1;
            proof {
                let old_prefix = prefix;
                prefix = prefix.push(center_id);
                assert(old_prefix + seq![center_id] =~= prefix);
                if center_id != common_center {
                    let w = self.ephemeris_walk(center_id, epoch, common_center, (fuel - 1) as nat);
                    match w {
                        Ok(s2) => {
                            assert(old_prefix + (seq![center_id] + s2) =~= prefix + s2);
                        },
                        Err(_) => {},
                    }
                }
            }
            if center_id == common_center {
                return Ok((of_path_len, of_path));
            }
        }
        Err(EphemerisError::MaxRecursionDepth)
    }

    /// Returns the ephemeris path between two frames and their common origin. Frames that
    /// share no origin give `TranslationOrigin`, a file integrity error.
    pub fn common_ephemeris_path(&self, from_frame: Frame, to_frame: Frame, epoch: Epoch) -> (r:
        Result<(usize, [Option<i32>; MAX_TREE_DEPTH], i32), EphemerisError>)
        ensures
            match (r, self.common_ephemeris(from_frame, to_frame, epoch)) {
                (Ok((len, path, node)), Ok((s, c))) => holds_path(len, path, s) && node == c,
                (Err(e), Err(e2)) => e == e2,
                _ => false,
            },
    {
        if from_frame.ephemeris_id == to_frame.ephemeris_id {
            return Ok((0, [None; MAX_TREE_DEPTH], from_frame.ephemeris_id));
        }
        let (from_len, from_path) = self.ephemeris_path_to_root(from_frame, epoch)?;
        let (to_len, to_path) = self.ephemeris_path_to_root(to_frame, epoch)?;
        let ghost fp = self.ephemeris_path(from_frame.ephemeris_id, epoch)->Ok_0;
        let ghost tp = self.ephemeris_path(to_frame.ephemeris_id, epoch)->Ok_0;
        match common_of_paths(
            from_len,
            from_path,
            to_len,
            to_path,
            from_frame.ephemeris_id,
            to_frame.ephemeris_id,
            Ghost(fp),
            Ghost(tp),
        ) {
            Some(c) => Ok(c),
            None => Err(EphemerisError::TranslationOrigin { from: from_frame, to: to_frame, epoch }),
        }
    }
}

} // verus!
