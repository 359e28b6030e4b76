use crate::almanac::{lemma_last_loaded_wins, Almanac, BPCSummaryRecord, ECLIPJ2000, Epoch, Frame, J2000, OrientationError, PlanetaryData};
use crate::tree::{
    after, common_nodes, common_of_paths, file_candidates, holds_path, is_prefix,
    lemma_prefix_contains, lemma_seen_prefix, min_abs_first, root_of, scan_step,
    summary_candidates, MAX_TREE_DEPTH,
};
use vstd::prelude::*;

verus! {

/// Selection picks one summary at most.
pub proof fn lemma_selected_unique(
    alm: Almanac,
    id: i32,
    t: Epoch,
    f1: int,
    s1: int,
    f2: int,
    s2: int,
)
    requires
        alm.is_selected(id, t, f1, s1),
        alm.is_selected(id, t, f2, s2),
    ensures
        f1 == f2 && s1 == s2,
{
    if f1 < f2 {
        assert(!alm.bpcs()[f2][s2].covers(id, t));
    } else if f2 < f1 {
        assert(!alm.bpcs()[f1][s1].covers(id, t));
    } else if s1 < s2 {
        assert(!alm.bpcs()[f2][s1].covers(id, t));
    } else if s2 < s1 {
        assert(!alm.bpcs()[f1][s2].covers(id, t));
    }
}

/// Two planetary lookups of one identifier find one entry.
pub proof fn lemma_first_planetary_unique(alm: Almanac, id: i32, i: int, j: int)
    requires
        alm.is_first_planetary(id, i),
        alm.is_first_planetary(id, j),
    ensures
        i == j,
{
    if i < j {
        assert(alm.planetary_data@[i].id != id);
    } else if j < i {
        assert(alm.planetary_data@[j].id != id);
    }
}

/// Among the summaries `0..m` of kernel `f`, some covering one comes first.
proof fn lemma_first_in_file(alm: Almanac, id: i32, t: Epoch, f: int, m: int)
    requires
        0 <= f < alm.bpcs().len(),
        m <= alm.bpcs()[f].len(),
        exists|x: int| 0 <= x < m && (#[trigger] alm.bpcs()[f][x]).covers(id, t),
    ensures
        exists|s: int|
            0 <= s < m && alm.bpcs()[f][s].covers(id, t) && forall|x: int|
                0 <= x < s ==> !(#[trigger] alm.bpcs()[f][x]).covers(id, t),
    decreases m,
{
    if exists|x: int| 0 <= x < m - 1 && (#[trigger] alm.bpcs()[f][x]).covers(id, t) {
        lemma_first_in_file(alm, id, t, f, m - 1);
    } else {
        assert(alm.bpcs()[f][m - 1].covers(id, t));
    }
}

/// When a kernel below `g` covers, and none from `g` up does, some summary is selected.
proof fn lemma_selected_below(alm: Almanac, id: i32, t: Epoch, g: int)
    requires
        g <= alm.bpcs().len(),
        exists|f: int, x: int|
            0 <= f < g && 0 <= x < alm.bpcs()[f].len() && (#[trigger] alm.bpcs()[f][x]).covers(id, t),
        forall|f: int, x: int|
            g <= f < alm.bpcs().len() && 0 <= x < alm.bpcs()[f].len() ==> !(
            #[trigger] alm.bpcs()[f][x]).covers(id, t),
    ensures
        exists|f: int, s: int| alm.is_selected(id, t, f, s),
    decreases g,
{
    let f = g - 1;
    if exists|x: int| 0 <= x < alm.bpcs()[f].len() && (#[trigger] alm.bpcs()[f][x]).covers(id, t) {
        lemma_first_in_file(alm, id, t, f, alm.bpcs()[f].len() as int);
        let s = choose|s: int|
            0 <= s < alm.bpcs()[f].len() && alm.bpcs()[f][s].covers(id, t) && forall|x: int|
                0 <= x < s ==> !(#[trigger] alm.bpcs()[f][x]).covers(id, t);
        assert(alm.is_selected(id, t, f, s));
    } else {
        lemma_selected_below(alm, id, t, f);
    }
}

/// Some planetary entry of `id` comes first among those of `0..m`.
proof fn lemma_first_planetary_exists(alm: Almanac, id: i32, m: int)
    requires
        m <= alm.planetary_data@.len(),
        exists|i: int| 0 <= i < m && (#[trigger] alm.planetary_data@[i]).id == id,
    ensures
        exists|i: int| alm.is_first_planetary(id, i),
    decreases m,
{
    if exists|i: int| 0 <= i < m - 1 && (#[trigger] alm.planetary_data@[i]).id == id {
        lemma_first_planetary_exists(alm, id, m - 1);
    } else {
        assert(alm.is_first_planetary(id, m - 1));
    }
}

/// Two almanacs with the same orientation kernels and planetary constants give `id` the
/// same parent.
pub proof fn lemma_same_data_same_parent(a: Almanac, b: Almanac, id: i32, t: Epoch)
    requires
        a.bpcs() == b.bpcs(),
        a.planetary_data@ == b.planetary_data@,
    ensures
        a.parent_of(id, t) == b.parent_of(id, t),
{
    if a.any_covers(id, t) {
        lemma_selected_below(a, id, t, a.bpcs().len() as int);
        let (f1, s1) = choose|f: int, s: int| a.is_selected(id, t, f, s);
        let (f2, s2) = choose|f: int, s: int| b.is_selected(id, t, f, s);
        assert(b.is_selected(id, t, f1, s1));
        lemma_selected_unique(b, id, t, f1, s1, f2, s2);
    } else if a.has_planetary(id) {
        lemma_first_planetary_exists(a, id, a.planetary_data@.len() as int);
        let i = choose|i: int| a.is_first_planetary(id, i);
        let j = choose|j: int| b.is_first_planetary(id, j);
        assert(b.is_first_planetary(id, i));
        lemma_first_planetary_unique(b, id, i, j);
    }
}

/// Walks over the same data agree.
pub proof fn lemma_same_data_same_walk(
    a: Almanac,
    b: Almanac,
    cur: i32,
    t: Epoch,
    root: i32,
    fuel: nat,
)
    requires
        a.bpcs() == b.bpcs(),
        a.planetary_data@ == b.planetary_data@,
    ensures
        a.walk(cur, t, root, fuel) == b.walk(cur, t, root, fuel),
    decreases fuel,
{
    lemma_same_data_same_parent(a, b, cur, t);
    if fuel > 0 {
        match a.hop_of(cur, t) {
            Some(p) => {
                lemma_same_data_same_walk(a, b, p, t, root, (fuel - 1) as nat);
            },
            None => {},
        }
    }
}

/// Paths depend on the loaded data alone: two almanacs with the same orientation kernels
/// and planetary constants give every frame the same path. So unloading the kernel loaded
/// last (see `unload_last_bpc`) gives back the paths from before it was loaded.
pub proof fn lemma_same_data_same_paths(a: Almanac, b: Almanac, source: i32, t: Epoch)
    requires
        a.bpcs() == b.bpcs(),
        a.planetary_data@ == b.planetary_data@,
    ensures
        a.path_to_root(source, t) == b.path_to_root(source, t),
{
    assert(a.root_candidates() == b.root_candidates());
    match a.orientation_root() {
        Some(root) => {
            lemma_same_data_same_walk(a, b, source, t, root, MAX_TREE_DEPTH as nat);
        },
        None => {},
    }
}

/// Once a kernel `k` is loaded after the others, a frame (other than Ecliptic J2000) that one
/// of its segments covers at `t` takes its first hop from the first such segment of `k`.
pub proof fn lemma_last_loaded_gives_first_hop(
    before: Almanac,
    after: Almanac,
    k: Seq<BPCSummaryRecord>,
    id: i32,
    t: Epoch,
    s: int,
)
    requires
        after.bpcs() == before.bpcs().push(k),
        0 <= s < k.len(),
        k[s].covers(id, t),
        forall|x: int| 0 <= x < s ==> !(#[trigger] k[x]).covers(id, t),
        id != ECLIPJ2000,
    ensures
        after.hop_of(id, t) == Some(k[s].inertial_frame_id),
{
    let n = before.bpcs().len() as int;
    lemma_last_loaded_wins(before, after, k, id, t, n, s);
    assert(after.bpcs()[n] == k);
    assert(after.is_selected(id, t, n, s));
    let (f2, s2) = choose|f: int, x: int| after.is_selected(id, t, f, x);
    lemma_selected_unique(after, id, t, n, s, f2, s2);
}

impl Almanac {
    /// Every candidate for the root: the inertial frames of the summaries that designate
    /// data, kernels from the last loaded down, then the parents in the planetary constants.
    pub open spec fn root_candidates(self) -> Seq<i32> {
        file_candidates(self.bpcs(), 0) + self.planetary_data@.map_values(
            |p: PlanetaryData| p.parent_id,
        )
    }

    /// The root of the orientation tree: J2000 when it appears among the candidates, else
    /// the first candidate of least absolute identifier, with Ecliptic J2000 read as J2000;
    /// none without candidates.
    pub open spec fn orientation_root(self) -> Option<i32> {
        match root_of(self.root_candidates(), J2000) {
            Some(r) => Some(
                if r == ECLIPJ2000 {
                    J2000
                } else {
                    r
                },
            ),
            None => None,
        }
    }

    /// Why the orientation tree has no root: nothing is loaded, or nothing loaded names a
    /// frame above another.
    pub open spec fn orientation_root_error(self) -> OrientationError {
        if self.bpc_data@.len() == 0 && self.planetary_data@.len() == 0 {
            OrientationError::NoOrientationsLoaded
        } else {
            OrientationError::NoOrientationRoot
        }
    }

    /// Returns the root of all loaded orientations, typically J2000.
    #[verifier::loop_isolation(false)]
    pub fn try_find_orientation_root(&self) -> (r: Result<i32, OrientationError>)
        ensures
            match r {
                Ok(root) => self.orientation_root() == Some(root),
                Err(e) => self.orientation_root() is None && e == self.orientation_root_error(),
            },
            r == Err::<i32, OrientationError>(OrientationError::NoOrientationsLoaded) <==> (
            self.bpc_data@.len() == 0 && self.planetary_data@.len() == 0),
    {
        let ghost files = self.bpcs();
        let ghost all = self.root_candidates();
        let ghost mut seen: Seq<i32> = seq![];
        assert(is_prefix(file_candidates(files, 0), all)) by {
            assert(all.subrange(0, file_candidates(files, 0).len() as int) =~= file_candidates(
                files,
                0,
            ));
        }
        let mut found = false;
        let mut best: i32 = 0;
        let mut f: usize = self.bpc_data.len();
        while f > 0
            invariant
                f <= files.len(),
                seen == file_candidates(files, f as int),
                found == (seen.len() > 0),
                found ==> best == min_abs_first(seen),
                !seen.contains(J2000),
            decreases f,
        {
            f -= 1;
            let summaries = &self.bpc_data[f].summaries;
            assert(summaries@ == files[f as int]);
            let ghost before = seen;
            let mut s: usize = 0;
            while s < summaries.len()
                invariant
                    f < files.len(),
                    summaries@ == files[f as int],
                    s <= summaries@.len(),
                    before == file_candidates(files, f as int + 1),
                    seen == before + summary_candidates(summaries@.subrange(0, s as int)),
                    found == (seen.len() > 0),
                    found ==> best == min_abs_first(seen),
                    !seen.contains(J2000),
                decreases summaries.len() - s,
            {
                let summary = summaries[s];
                let ghost prefix = summaries@.subrange(0, s as int + 1);
                assert(prefix.drop_last() =~= summaries@.subrange(0, s as int));
                if !summary.is_empty() {
                    let x = summary.inertial_frame_id;
                    let ghost old_seen = seen;
                    proof {
                        seen = seen.push(x);
                        assert(seen =~= before + summary_candidates(prefix));
                        lemma_seen_prefix(files, f as int, s as int + 1, all);
                    }
                    if x == J2000 {
                        proof {
                            assert(seen[seen.len() - 1] == J2000);
                            lemma_prefix_contains(seen, all, J2000);
                        }
                        return Ok(J2000);
                    }
                    best = scan_step(found, best, x, Ghost(old_seen));
                    found = true;
                } else {
                    assert(before + summary_candidates(prefix) =~= seen);
                }
                s += 1;
            }
            assert(summaries@.subrange(0, s as int) =~= summaries@);
        }
        proof {
            assert(seen =~= file_candidates(files, 0));
        }
        let ghost parents = self.planetary_data@.map_values(|p: PlanetaryData| p.parent_id);
        let mut i: usize = 0;
        while i < self.planetary_data.len()
            invariant
                i <= self.planetary_data@.len(),
                seen == file_candidates(files, 0) + parents.subrange(0, i as int),
                found == (seen.len() > 0),
                found ==> best == min_abs_first(seen),
                !seen.contains(J2000),
            decreases self.planetary_data.len() - i,
        {
            let x = self.planetary_data[i].parent_id;
            let ghost old_seen = seen;
            proof {
                seen = seen.push(x);
                assert(seen =~= file_candidates(files, 0) + parents.subrange(0, i as int + 1));
            }
            if x == J2000 {
                proof {
                    assert(all.subrange(0, seen.len() as int) =~= seen);
                    assert(seen[seen.len() - 1] == J2000);
                    lemma_prefix_contains(seen, all, J2000);
                }
                return Ok(J2000);
            }
            best = scan_step(found, best, x, Ghost(old_seen));
            found = true;
            i += 1;
        }
        proof {
            assert(parents.subrange(0, i as int) =~= parents);
            assert(seen =~= all);
        }
        if !found {
            if self.bpc_data.len() == 0 && self.planetary_data.len() == 0 {
                return Err(OrientationError::NoOrientationsLoaded);
            }
            return Err(OrientationError::NoOrientationRoot);
        }
        if best == ECLIPJ2000 {
            Ok(J2000)
        } else {
            Ok(best)
        }
    }
}

impl Almanac {
    /// The frame that `id` is oriented against at `t`: J2000 for Ecliptic J2000, whose
    /// rotation is built in, else as loaded data give it.
    pub open spec fn hop_of(self, id: i32, t: Epoch) -> Option<i32> {
        if id == ECLIPJ2000 {
            Some(J2000)
        } else {
            self.parent_of(id, t)
        }
    }

    /// The walk up the tree from `cur` until `root`, in at most `fuel` hops.
    pub open spec fn walk(self, cur: i32, t: Epoch, root: i32, fuel: nat) -> Result<
        Seq<i32>,
        OrientationError,
    >
        decreases fuel,
    {
        if fuel == 0 {
            Err(OrientationError::MaxRecursionDepth)
        } else {
            match self.hop_of(cur, t) {
                None => Err(OrientationError::OutOfCoverage { id: cur, epoch: t }),
                Some(p) => if p == root {
                    Ok(seq![p])
                } else {
                    after(seq![p], self.walk(p, t, root, (fuel - 1) as nat))
                },
            }
        }
    }

    /// The path from `source` to the root of the tree: each node's parent in turn, the
    /// root last, with the built-in hop from Ecliptic J2000 to J2000 wherever it occurs.
    pub open spec fn path_to_root(self, source: i32, t: Epoch) -> Result<Seq<i32>, OrientationError> {
        match self.orientation_root() {
            None => Err(self.orientation_root_error()),
            Some(root) => if source == root {
                Ok(seq![])
            } else {
                self.walk(source, t, root, MAX_TREE_DEPTH as nat)
            },
        }
    }

    /// The common path of two frames (see [common_nodes]); frames of one orientation have
    /// an empty path, and that orientation is their common node.
    pub open spec fn common_path(self, from: Frame, to: Frame, t: Epoch) -> Result<
        (Seq<i32>, i32),
        OrientationError,
    > {
        if from.orientation_id == to.orientation_id {
            Ok((seq![], from.orientation_id))
        } else {
            match self.path_to_root(from.orientation_id, t) {
                Err(e) => Err(e),
                Ok(fp) => match self.path_to_root(to.orientation_id, t) {
                    Err(e) => Err(e),
                    Ok(tp) => match common_nodes(fp, tp, from.orientation_id, to.orientation_id) {
                        Some(c) => Ok(c),
                        None => Err(OrientationError::RotationOrigin { from, to, epoch: t }),
                    },
                },
            }
        }
    }

    /// Returns the frame that `id` is oriented against at `t`: that of the chosen segment,
    /// or else that of its planetary constants.
    pub fn parent_at_epoch(&self, id: i32, t: Epoch) -> (r: Result<i32, OrientationError>)
        ensures
            match r {
                Ok(p) => self.parent_of(id, t) == Some(p),
                Err(e) => self.parent_of(id, t) is None && e == (OrientationError::OutOfCoverage {
                    id,
                    epoch: t,
                }),
            },
    {
        match self.bpc_summary_at_epoch(id, t) {
            Ok((summary, f, s)) => {
                proof {
                    let (f2, s2) = choose|f2: int, s2: int| self.is_selected(id, t, f2, s2);
                    lemma_selected_unique(*self, id, t, f as int, s as int, f2, s2);
                }
                Ok(summary.inertial_frame_id)
            },
            Err(_) => match self.planetary_parent(id) {
                Some(p) => {
                    proof {
                        let i = choose|i: int|
                            self.is_first_planetary(id, i) && p == self.planetary_data@[i].parent_id;
                        let j = choose|j: int| self.is_first_planetary(id, j);
                        lemma_first_planetary_unique(*self, id, i, j);
                    }
                    Ok(p)
                },
                None => Err(OrientationError::OutOfCoverage { id, epoch: t }),
            },
        }
    }

    /// Returns the path from `source` to the root of the loaded orientations, as its number
    /// of hops and the nodes, without the source itself.
    #[verifier::loop_isolation(false)]
    pub fn orientation_path_to_root(&self, source: Frame, epoch: Epoch) -> (r: Result<
        (usize, [Option<i32>; MAX_TREE_DEPTH]),
        OrientationError,
    >)
        ensures
            match (r, self.path_to_root(source.orientation_id, epoch)) {
                (Ok((len, path)), Ok(s)) => holds_path(len, path, s),
                (Err(e), Err(e2)) => e == e2,
                _ => false,
            },
    {
        let common_center = self.try_find_orientation_root()?;
        let mut of_path: [Option<i32>; MAX_TREE_DEPTH] = [None; MAX_TREE_DEPTH];
        let mut of_path_len: usize = 0;
        if common_center == source.orientation_id {
            return Ok((of_path_len, of_path));
        }
        let mut frame_id = source.orientation_id;
        let ghost mut prefix: Seq<i32> = seq![];
        assert(after(prefix, self.walk(frame_id, epoch, common_center, 8)) == self.path_to_root(
            source.orientation_id,
            epoch,
        )) by {
            match self.walk(frame_id, epoch, common_center, 8) {
                Ok(s2) => {
                    assert(prefix + s2 =~= s2);
                },
                Err(_) => {},
            }
        }
        while of_path_len < MAX_TREE_DEPTH
            invariant
                of_path_len <= MAX_TREE_DEPTH,
                holds_path(of_path_len, of_path, prefix),
                frame_id != common_center,
                self.orientation_root() == Some(common_center),
                self.path_to_root(source.orientation_id, epoch) == after(
                    prefix,
                    self.walk(frame_id, epoch, common_center, (MAX_TREE_DEPTH - of_path_len) as nat),
                ),
            decreases MAX_TREE_DEPTH - of_path_len,
        {
            let ghost fuel = (MAX_TREE_DEPTH - of_path_len) as nat;
            frame_id = if frame_id == ECLIPJ2000 {
                J2000
            } else {
                self.parent_at_epoch(frame_id, epoch)?
            };
            of_path[of_path_len] = Some(frame_id);
            of_path_len += 1;
            proof {
                let old_prefix = prefix;
                prefix = prefix.push(frame_id);
                assert(old_prefix + seq![frame_id] =~= prefix);
                if frame_id != common_center {
                    let w = self.walk(frame_id, epoch, common_center, (fuel - 1) as nat);
                    match w {
                        Ok(s2) => {
                            assert(old_prefix + (seq![frame_id] + s2) =~= prefix + s2);
                        },
                        Err(_) => {},
                    }
                }
            }
            if frame_id == common_center {
                return Ok((of_path_len, of_path));
            }
        }
        Err(OrientationError::MaxRecursionDepth)
    }

    /// Returns the orientation path between two frames and their common node. Frames that
    /// share no node give `RotationOrigin`, a file integrity error.
    pub fn common_orientation_path(&self, from_frame: Frame, to_frame: Frame, epoch: Epoch) -> (r:
        Result<(usize, [Option<i32>; MAX_TREE_DEPTH], i32), OrientationError>)
        ensures
            match (r, self.common_path(from_frame, to_frame, epoch)) {
                (Ok((len, path, node)), Ok((s, c))) => holds_path(len, path, s) && node == c,
                (Err(e), Err(e2)) => e == e2,
                _ => false,
            },
    {
        if from_frame.orientation_id == to_frame.orientation_id {
            return Ok((0, [None; MAX_TREE_DEPTH], from_frame.orientation_id));
        }
        let (from_len, from_path) = self.orientation_path_to_root(from_frame, epoch)?;
        let (to_len, to_path) = self.orientation_path_to_root(to_frame, epoch)?;
        let ghost fp = self.path_to_root(from_frame.orientation_id, epoch)->Ok_0;
        let ghost tp = self.path_to_root(to_frame.orientation_id, epoch)->Ok_0;
        match common_of_paths(
            from_len,
            from_path,
            to_len,
            to_path,
            from_frame.orientation_id,
            to_frame.orientation_id,
            Ghost(fp),
            Ghost(tp),
        ) {
            Some(c) => Ok(c),
            None => Err(OrientationError::RotationOrigin { from: from_frame, to: to_frame, epoch }),
        }
    }
}

} // verus!
