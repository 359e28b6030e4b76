use vstd::prelude::*;

verus! {

/// No translation or rotation path may have more than this many hops.
pub const MAX_TREE_DEPTH: usize = 8;

/// The absolute value of an identifier.
pub open spec fn abs_id(x: i32) -> int {
    if x < 0 {
        -(x as int)
    } else {
        x as int
    }
}

/// The first candidate of least absolute value.
pub open spec fn min_abs_first(c: Seq<i32>) -> i32
    decreases c.len(),
{
    if c.len() <= 1 {
        c[0]
    } else {
        let prev = min_abs_first(c.drop_last());
        if abs_id(c.last()) < abs_id(prev) {
            c.last()
        } else {
            prev
        }
    }
}

/// The root of a tree whose nodes above others are the candidates `c`: `preferred` when
/// it appears, else the first candidate of least absolute value; none without candidates.
pub open spec fn root_of(c: Seq<i32>, preferred: i32) -> Option<i32> {
    if c.len() == 0 {
        None
    } else if c.contains(preferred) {
        Some(preferred)
    } else {
        Some(min_abs_first(c))
    }
}

/// The first candidate of least absolute value is a candidate, no other has a smaller
/// absolute value, and none before it has the same.
pub proof fn lemma_min_abs_first(c: Seq<i32>)
    requires
        c.len() > 0,
    ensures
        exists|i: int|
            0 <= i < c.len() && c[i] == min_abs_first(c) && forall|j: int|
                0 <= j < i ==> abs_id(#[trigger] c[j]) > abs_id(c[i]),
        forall|j: int| 0 <= j < c.len() ==> abs_id(min_abs_first(c)) <= abs_id(#[trigger] c[j]),
    decreases c.len(),
{
    if c.len() == 1 {
        assert(c[0] == min_abs_first(c));
    } else {
        let d = c.drop_last();
        lemma_min_abs_first(d);
        let i = choose|i: int|
            0 <= i < d.len() && d[i] == min_abs_first(d) && forall|j: int|
                0 <= j < i ==> abs_id(#[trigger] d[j]) > abs_id(d[i]);
        if abs_id(c.last()) < abs_id(min_abs_first(d)) {
            assert forall|j: int| 0 <= j < c.len() - 1 implies abs_id(#[trigger] c[j]) > abs_id(
                c[c.len() - 1],
            ) by {
                assert(c[j] == d[j]);
            }
            let w = c.len() - 1;
            assert(0 <= w < c.len() && c[w] == min_abs_first(c) && forall|j: int|
                0 <= j < w ==> abs_id(#[trigger] c[j]) > abs_id(c[w]));
        } else {
            assert(c[i] == d[i]);
            assert forall|j: int| 0 <= j < i implies abs_id(#[trigger] c[j]) > abs_id(c[i]) by {
                assert(c[j] == d[j]);
            }
            assert(0 <= i < c.len() && c[i] == min_abs_first(c) && forall|j: int|
                0 <= j < i ==> abs_id(#[trigger] c[j]) > abs_id(c[i]));
        }
        assert forall|j: int| 0 <= j < c.len() implies abs_id(min_abs_first(c)) <= abs_id(
            #[trigger] c[j],
        ) by {
            if j < c.len() - 1 {
                assert(c[j] == d[j]);
            }
        }
    }
}

/// One step of the root scan: the first candidate of least absolute value once `x` is seen
/// after `seen`.
pub fn scan_step(found: bool, best: i32, x: i32, Ghost(seen): Ghost<Seq<i32>>) -> (r: i32)
    requires
        found == (seen.len() > 0),
        found ==> best == min_abs_first(seen),
    ensures
        r == min_abs_first(seen.push(x)),
{
    assert(seen.push(x).drop_last() =~= seen);
    if !found || abs_i64(x) < abs_i64(best) {
        x
    } else {
        best
    }
}

/// What a start of a sequence holds, the sequence holds.
pub proof fn lemma_prefix_contains(a: Seq<i32>, b: Seq<i32>, x: i32)
    requires
        is_prefix(a, b),
        a.contains(x),
    ensures
        b.contains(x),
{
    let i = choose|i: int| 0 <= i < a.len() && a[i] == x;
    assert(b.subrange(0, a.len() as int)[i] == x);
}

/// A segment summary that may name a candidate for the root of its tree.
pub trait RootCandidate {
    /// The node above the segment's own, when the summary designates data.
    spec fn root_candidate(&self) -> Option<i32>;
}

/// The candidates of the summaries of one kernel, in file order.
pub open spec fn summary_candidates<T: RootCandidate>(s: Seq<T>) -> Seq<i32>
    decreases s.len(),
{
    if s.len() == 0 {
        seq![]
    } else {
        let prev = summary_candidates(s.drop_last());
        match s.last().root_candidate() {
            Some(c) => prev.push(c),
            None => prev,
        }
    }
}

/// The candidates of the kernels of index `k` and above, from the last loaded down.
pub open spec fn file_candidates<T: RootCandidate>(files: Seq<Seq<T>>, k: int) -> Seq<i32>
    decreases files.len() - k,
{
    if k >= files.len() || k < 0 {
        seq![]
    } else {
        file_candidates(files, k + 1) + summary_candidates(files[k])
    }
}

/// `a` is the start of `b`.
pub open spec fn is_prefix(a: Seq<i32>, b: Seq<i32>) -> bool {
    a.len() <= b.len() && b.subrange(0, a.len() as int) == a
}

pub proof fn lemma_prefix_trans(a: Seq<i32>, b: Seq<i32>, c: Seq<i32>)
    requires
        is_prefix(a, b),
        is_prefix(b, c),
    ensures
        is_prefix(a, c),
{
    assert(c.subrange(0, a.len() as int) =~= b.subrange(0, a.len() as int));
}

/// The candidates of the first `m` summaries start the candidates of all of them.
pub proof fn lemma_summary_prefix<T: RootCandidate>(s: Seq<T>, m: int)
    requires
        0 <= m <= s.len(),
    ensures
        is_prefix(summary_candidates(s.subrange(0, m)), summary_candidates(s)),
    decreases s.len(),
{
    if m == s.len() {
        assert(s.subrange(0, m) =~= s);
        assert(summary_candidates(s).subrange(0, summary_candidates(s).len() as int)
            =~= summary_candidates(s));
    } else {
        let d = s.drop_last();
        lemma_summary_prefix(d, m);
        assert(d.subrange(0, m) =~= s.subrange(0, m));
        let sd = summary_candidates(d);
        let ss = summary_candidates(s);
        assert(is_prefix(sd, ss)) by {
            assert(ss.subrange(0, sd.len() as int) =~= sd);
        }
        lemma_prefix_trans(summary_candidates(s.subrange(0, m)), sd, ss);
    }
}

/// The candidates of the kernels from `j` up start those from `k` up, for `k <= j`.
pub proof fn lemma_file_prefix<T: RootCandidate>(files: Seq<Seq<T>>, k: int, j: int)
    requires
        0 <= k <= j,
    ensures
        is_prefix(file_candidates(files, j), file_candidates(files, k)),
    decreases j - k,
{
    if k == j {
        assert(file_candidates(files, k).subrange(0, file_candidates(files, k).len() as int)
            =~= file_candidates(files, k));
    } else {
        lemma_file_prefix(files, k + 1, j);
        let a = file_candidates(files, k + 1);
        let b = file_candidates(files, k);
        assert(is_prefix(a, b)) by {
            assert(b.subrange(0, a.len() as int) =~= a);
        }
        lemma_prefix_trans(file_candidates(files, j), a, b);
    }
}

/// The candidates seen so far, kernels `f + 1` and above then the first `s` summaries of
/// kernel `f`, start all the candidates of the kernels, and so any sequence that those start.
pub proof fn lemma_seen_prefix<T: RootCandidate>(
    files: Seq<Seq<T>>,
    f: int,
    s: int,
    all: Seq<i32>,
)
    requires
        0 <= f < files.len(),
        0 <= s <= files[f].len(),
        is_prefix(file_candidates(files, 0), all),
    ensures
        is_prefix(
            file_candidates(files, f + 1) + summary_candidates(files[f].subrange(0, s)),
            all,
        ),
{
    lemma_summary_prefix(files[f], s);
    lemma_file_prefix(files, 0, f);
    let before = file_candidates(files, f + 1);
    let head = summary_candidates(files[f].subrange(0, s));
    let tail = summary_candidates(files[f]);
    assert(file_candidates(files, f) == before + tail);
    assert(is_prefix(before + head, file_candidates(files, f))) by {
        assert((before + tail).subrange(0, (before + head).len() as int) =~= before + head);
    }
    lemma_prefix_trans(before + head, file_candidates(files, f), file_candidates(files, 0));
    lemma_prefix_trans(before + head, file_candidates(files, 0), all);
}

/// The absolute value of an identifier, widened so that it cannot overflow.
pub fn abs_i64(x: i32) -> (r: i64)
    ensures
        r == abs_id(x),
{
    if x < 0 {
        -(x as i64)
    } else {
        x as i64
    }
}

/// `path[..len]` holds `s` and the rest of `path` is empty.
pub open spec fn holds_path(len: usize, path: [Option<i32>; MAX_TREE_DEPTH], s: Seq<i32>) -> bool {
    &&& len == s.len()
    &&& len <= MAX_TREE_DEPTH
    &&& forall|i: int| 0 <= i < len ==> path@[i] == Some(#[trigger] s[i])
    &&& forall|i: int| len <= i < MAX_TREE_DEPTH ==> path@[i] is None
}

/// A walk's outcome after `prefix`.
pub open spec fn after<E>(prefix: Seq<i32>, w: Result<Seq<i32>, E>) -> Result<Seq<i32>, E> {
    match w {
        Ok(s) => Ok(prefix + s),
        Err(e) => Err(e),
    }
}

/// `i` is the first node of `fp` that `tp` also holds.
pub open spec fn first_shared(fp: Seq<i32>, tp: Seq<i32>, i: int) -> bool {
    &&& 0 <= i < fp.len()
    &&& tp.contains(fp[i])
    &&& forall|j: int| 0 <= j < i ==> !tp.contains(#[trigger] fp[j])
}

/// The common part of the paths to the root `fp` from node `from` and `tp` from node `to`:
/// the path from one query node to the common node, and that node; `None` when they share
/// no node.
pub open spec fn common_nodes(fp: Seq<i32>, tp: Seq<i32>, from: i32, to: i32) -> Option<
    (Seq<i32>, i32),
> {
    if fp.len() == 0 && tp.len() == 0 {
        None
    } else if tp.len() == 0 {
        Some((fp, to))
    } else if fp.len() == 0 {
        Some((tp, from))
    } else if tp.contains(from) {
        Some((seq![from], from))
    } else if fp.contains(to) {
        Some((seq![to], to))
    } else if exists|i: int| first_shared(fp, tp, i) {
        let i = choose|i: int| first_shared(fp, tp, i);
        Some((fp.take(i), fp[i]))
    } else {
        None
    }
}

/// Whether `path[..len]` holds `x`.
fn path_contains(path: &[Option<i32>; MAX_TREE_DEPTH], len: usize, x: i32) -> (r: bool)
    requires
        len <= MAX_TREE_DEPTH,
    ensures
        r == exists|k: int| 0 <= k < len && path@[k] == Some(x),
{
    let mut k: usize = 0;
    while k < len
        invariant
            k <= len <= MAX_TREE_DEPTH,
            forall|m: int| 0 <= m < k ==> path@[m] != Some(x),
        decreases len - k,
    {
        if path[k] == Some(x) {
            return true;
        }
        k += 1;
    }
    false
}

/// Returns the common part of two paths to the root (see [common_nodes]).
#[verifier::loop_isolation(false)]
pub fn common_of_paths(
    from_len: usize,
    from_path: [Option<i32>; MAX_TREE_DEPTH],
    to_len: usize,
    to_path: [Option<i32>; MAX_TREE_DEPTH],
    from_id: i32,
    to_id: i32,
    Ghost(fp): Ghost<Seq<i32>>,
    Ghost(tp): Ghost<Seq<i32>>,
) -> (r: Option<(usize, [Option<i32>; MAX_TREE_DEPTH], i32)>)
    requires
        holds_path(from_len, from_path, fp),
        holds_path(to_len, to_path, tp),
    ensures
        match (r, common_nodes(fp, tp, from_id, to_id)) {
            (Some((len, path, node)), Some((s, c))) => holds_path(len, path, s) && node == c,
            (None, None) => true,
            _ => false,
        },
{
    if from_len == 0 && to_len == 0 {
        return None;
    } else if to_len == 0 {
        return Some((from_len, from_path, to_id));
    } else if from_len == 0 {
        return Some((to_len, to_path, from_id));
    }
    let mut common_path: [Option<i32>; MAX_TREE_DEPTH] = [None; MAX_TREE_DEPTH];
    if path_contains(&to_path, to_len, from_id) {
        proof {
            let k = choose|k: int| 0 <= k < to_len && to_path@[k] == Some(from_id);
            assert(tp[k] == from_id);
        }
        common_path[0] = Some(from_id);
        assert(holds_path(1, common_path, seq![from_id]));
        return Some((1, common_path, from_id));
    }
    assert(!tp.contains(from_id)) by {
        if tp.contains(from_id) {
            let k = choose|k: int| 0 <= k < tp.len() && tp[k] == from_id;
            assert(to_path@[k] == Some(from_id));
        }
    }
    if path_contains(&from_path, from_len, to_id) {
        proof {
            let k = choose|k: int| 0 <= k < from_len && from_path@[k] == Some(to_id);
            assert(fp[k] == to_id);
        }
        common_path[0] = Some(to_id);
        assert(holds_path(1, common_path, seq![to_id]));
        return Some((1, common_path, to_id));
    }
    assert(!fp.contains(to_id)) by {
        if fp.contains(to_id) {
            let k = choose|k: int| 0 <= k < fp.len() && fp[k] == to_id;
            assert(from_path@[k] == Some(to_id));
        }
    }
    let mut items: usize = 0;
    while items < from_len
        invariant
            items <= from_len <= MAX_TREE_DEPTH,
            holds_path(items, common_path, fp.take(items as int)),
            forall|j: int| 0 <= j < items ==> !tp.contains(#[trigger] fp[j]),
        decreases from_len - items,
    {
        assert(from_path@[items as int] == Some(fp[items as int]));
        let node = from_path[items].unwrap();
        if path_contains(&to_path, to_len, node) {
            proof {
                let k = choose|k: int| 0 <= k < to_len && to_path@[k] == Some(node);
                assert(tp[k] == node);
                assert(first_shared(fp, tp, items as int));
                let i2 = choose|i: int| first_shared(fp, tp, i);
                if i2 < items {
                    assert(!tp.contains(fp[i2]));
                } else if items < i2 {
                    assert(!tp.contains(fp[items as int]));
                }
            }
            return Some((items, common_path, node));
        }
        assert(!tp.contains(node)) by {
            if tp.contains(node) {
                let k = choose|k: int| 0 <= k < tp.len() && tp[k] == node;
                assert(to_path@[k] == Some(node));
            }
        }
        common_path[items] = Some(node);
        items += 1;
        assert(fp.take(items as int) =~= fp.take(items as int - 1).push(node));
    }
    assert(!exists|i: int| first_shared(fp, tp, i));
    None
}

} // verus!
