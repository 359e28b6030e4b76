use heapless::FnvIndexMap;
use vstd::prelude::*;

verus! {

/// Largest number of keys of each kind that a look-up table holds.
pub const MAX_LUT_ENTRIES: usize = 32;

/// A look-up table entry holds the start and end indexes, in the data array, of the data sought.
///
/// The indexes are kept as `u32` so that the same binary representation works on every platform.
#[derive(Copy, Clone, Debug, Default, PartialEq, Eq, PartialOrd, Ord, Structural)]
pub struct Entry {
    pub start_idx: u32,
    pub end_idx: u32,
}

impl Entry {
    /// The range of the data array that this entry designates.
    pub fn as_range(&self) -> (r: core::ops::Range<usize>)
        ensures
            r.start == self.start_idx as usize,
            r.end == self.end_idx as usize,
    {
        self.start_idx as usize..self.end_idx as usize
    }
}

/// Errors of the bounded structures.
#[derive(Copy, Clone, Debug, PartialEq, Eq, Structural)]
pub enum AniseError {
    /// An insertion was attempted into a structure that holds its maximum number of keys.
    StructureIsFull,
}

/// A table that finds the [Entry] of either an identifier or a name.
///
/// Both the identifiers and the names are unique in the table.
#[verifier::external_body]
#[derive(Debug, PartialEq, Eq)]
pub struct LookUpTable {
    by_id: FnvIndexMap<i32, Entry, MAX_LUT_ENTRIES>,
    by_name: FnvIndexMap<String, Entry, MAX_LUT_ENTRIES>,
}

/// Decoding what a table is encoded as gives back the side whose entries were encoded. When the table is aligned (as appends of distinct identifiers
/// with distinct names leave it, see [lemma_appends_agree]), both sides come back.
pub proof fn lemma_encoding_round_trip(t: LookUpTable)
    requires
        t.wf(),
    ensures
        ({
            let e = t.encoded_entries();
            &&& ids_of(t).len() >= names_of(t).len() ==> map_of_pairs(
                id_order(t),
                e,
                id_order(t).len(),
            ) == ids_of(t)
            &&& ids_of(t).len() < names_of(t).len() ==> map_of_pairs(
                name_order(t),
                e,
                name_order(t).len(),
            ) == names_of(t)
            &&& t.aligned() ==> map_of_pairs(id_order(t), e, id_order(t).len()) == ids_of(t)
                && map_of_pairs(name_order(t), e, name_order(t).len()) == names_of(t)
        }),
{
    let e = t.encoded_entries();
    if ids_of(t).len() >= names_of(t).len() {
        assert forall|i: int| 0 <= i < e.len() implies e[i] == ids_of(t)[#[trigger] id_order(t)[i]] by {}
        lemma_rebuild_side(id_order(t), ids_of(t), e);
        if t.aligned() {
            assert forall|i: int| 0 <= i < e.len() implies e[i] == names_of(t)[
                #[trigger] name_order(t)[i]] by {
                assert(names_of(t)[name_order(t)[i]] == ids_of(t)[id_order(t)[i]]);
            }
            lemma_rebuild_side(name_order(t), names_of(t), e);
        }
    } else {
        assert forall|i: int| 0 <= i < e.len() implies e[i] == names_of(t)[#[trigger] name_order(t)[i]] by {}
        lemma_rebuild_side(name_order(t), names_of(t), e);
    }
}

/// The table holds exactly what appending `ids[i]`, `names[i]`, `entries[i]` in turn to an
/// empty table gives, keys in the order of their first append.
pub open spec fn built_by(t: LookUpTable, ids: Seq<i32>, names: Seq<Seq<char>>, entries: Seq<Entry>) -> bool {
    &&& ids.len() == names.len()
    &&& names.len() == entries.len()
    &&& ids_of(t) == map_of_pairs(ids, entries, ids.len())
    &&& names_of(t) == map_of_pairs(names, entries, ids.len())
    &&& id_order(t) == order_of(ids, ids.len())
    &&& name_order(t) == order_of(names, ids.len())
}

/// Pairs past the first `n` do not change the map of the first `n`, nor their order.
pub proof fn lemma_pairs_prefix<K>(keys: Seq<K>, vals: Seq<Entry>, k: K, v: Entry, n: nat)
    requires
        n <= keys.len(),
        n <= vals.len(),
    ensures
        map_of_pairs(keys.push(k), vals.push(v), n) == map_of_pairs(keys, vals, n),
        order_of(keys.push(k), n) == order_of(keys, n),
    decreases n,
{
    if n > 0 {
        lemma_pairs_prefix(keys, vals, k, v, (n - 1) as nat);
        assert(keys.push(k)[n - 1] == keys[n - 1]);
        assert(vals.push(v)[n - 1] == vals[n - 1]);
    }
}

/// An empty table is built by no appends.
pub proof fn lemma_empty_built(t: LookUpTable)
    requires
        ids_of(t) =~= Map::<i32, Entry>::empty(),
        names_of(t) =~= Map::<Seq<char>, Entry>::empty(),
        id_order(t).len() == 0,
        name_order(t).len() == 0,
    ensures
        built_by(t, seq![], seq![], seq![]),
{
    assert(id_order(t) =~= order_of(Seq::<i32>::empty(), 0));
    assert(name_order(t) =~= order_of(Seq::<Seq<char>>::empty(), 0));
}

/// One more successful append (what `append` promises when it returns `Ok`) extends the
/// appends that built a table by its arguments. With [lemma_empty_built] this carries any
/// run of successful appends from `LookUpTable::default()`, and [lemma_appends_agree]
/// then gives, for distinct identifiers and names, that lookups by identifier and by name
/// agree and that `check_integrity` holds.
pub proof fn lemma_append_builds(
    before: LookUpTable,
    after: LookUpTable,
    ids: Seq<i32>,
    names: Seq<Seq<char>>,
    entries: Seq<Entry>,
    id: i32,
    name: Seq<char>,
    e: Entry,
)
    requires
        before.wf(),
        built_by(before, ids, names, entries),
        ids_of(after) == ids_of(before).insert(id, e),
        names_of(after) == names_of(before).insert(name, e),
        id_order(after) == (if !ids_of(before).contains_key(id) {
            id_order(before).push(id)
        } else {
            id_order(before)
        }),
        name_order(after) == (if !names_of(before).contains_key(name) {
            name_order(before).push(name)
        } else {
            name_order(before)
        }),
    ensures
        built_by(after, ids.push(id), names.push(name), entries.push(e)),
{
    let n = ids.len();
    lemma_pairs_prefix(ids, entries, id, e, n);
    lemma_pairs_prefix(names, entries, name, e, n);
    assert(ids.push(id)[n as int] == id);
    assert(names.push(name)[n as int] == name);
    assert(entries.push(e)[n as int] == e);
    lemma_listing_insert(id_order(before), ids_of(before), id, e);
    lemma_listing_insert(name_order(before), names_of(before), name, e);
}

impl Default for LookUpTable {
    /// Relies on heapless::IndexMap::new: both maps start empty.
    #[verifier::external_body]
    fn default() -> (r: Self)
        ensures
            ids_of(r) =~= Map::empty(),
            names_of(r) =~= Map::empty(),
            id_order(r).len() == 0,
            name_order(r).len() == 0,
    {
        Self { by_id: FnvIndexMap::new(), by_name: FnvIndexMap::new() }
    }
}

/// What the table holds under identifiers.
pub uninterp spec fn ids_of(t: LookUpTable) -> Map<i32, Entry>;

/// What the table holds under names.
pub uninterp spec fn names_of(t: LookUpTable) -> Map<Seq<char>, Entry>;

/// The identifiers of the table in the order that it keeps them: that of insertion.
pub uninterp spec fn id_order(t: LookUpTable) -> Seq<i32>;

/// The names of the table in the order that it keeps them: that of insertion.
pub uninterp spec fn name_order(t: LookUpTable) -> Seq<Seq<char>>;

/// The keys of `keys[..n]` in order of first appearance.
pub open spec fn order_of<K>(keys: Seq<K>, n: nat) -> Seq<K>
    decreases n,
{
    if n == 0 {
        seq![]
    } else {
        let p = order_of(keys, (n - 1) as nat);
        if p.contains(keys[n - 1]) {
            p
        } else {
            p.push(keys[n - 1])
        }
    }
}

/// The map built by inserting `(keys[i], vals[i])` for `i` in `0..n`, in that order.
pub open spec fn map_of_pairs<K>(keys: Seq<K>, vals: Seq<Entry>, n: nat) -> Map<K, Entry>
    decreases n,
{
    if n == 0 {
        Map::empty()
    } else {
        map_of_pairs(keys, vals, (n - 1) as nat).insert(keys[n - 1], vals[n - 1])
    }
}

/// Both sides agree: if both hold something, they hold as many keys and the same set of
/// entries.
pub open spec fn integral(ids: Map<i32, Entry>, names: Map<Seq<char>, Entry>) -> bool {
    ids.len() == 0 || names.len() == 0 || (ids.len() == names.len() && (forall|k: i32|
        #[trigger] ids.contains_key(k) ==> names.contains_value(ids[k])) && (forall|k: Seq<char>|
        #[trigger] names.contains_key(k) ==> ids.contains_value(names[k])))
}

/// `s` lists each key of `m` exactly once.
pub open spec fn lists_keys<K>(s: Seq<K>, m: Map<K, Entry>) -> bool {
    &&& s.len() == m.len()
    &&& forall|i: int| 0 <= i < s.len() ==> m.contains_key(#[trigger] s[i])
    &&& forall|i: int, j: int| 0 <= i < j < s.len() ==> s[i] != s[j]
    &&& forall|k: K| m.contains_key(k) ==> exists|i: int| 0 <= i < s.len() && s[i] == k
}

/// Inserting a key keeps a listing of the keys, with a new key last.
pub proof fn lemma_listing_insert<K>(s: Seq<K>, m: Map<K, Entry>, k: K, v: Entry)
    requires
        lists_keys(s, m),
        m.dom().finite(),
    ensures
        lists_keys(
            if m.contains_key(k) {
                s
            } else {
                s.push(k)
            },
            m.insert(k, v),
        ),
        s.contains(k) == m.contains_key(k),
{
    assert(m.insert(k, v).dom() =~= m.dom().insert(k));
    if m.contains_key(k) {
        let i = choose|i: int| 0 <= i < s.len() && s[i] == k;
        assert(s[i] == k);
    } else {
        let s2 = s.push(k);
        assert forall|x: K| m.insert(k, v).contains_key(x) implies exists|i: int|
            0 <= i < s2.len() && s2[i] == x by {
            if x == k {
                assert(s2[s.len() as int] == k);
            } else {
                let i = choose|i: int| 0 <= i < s.len() && s[i] == x;
                assert(s2[i] == x);
            }
        }
        assert forall|i: int, j: int| 0 <= i < j < s2.len() implies s2[i] != s2[j] by {
            if j == s.len() {
                assert(m.contains_key(s[i]));
            }
        }
        assert forall|i: int| 0 <= i < s2.len() implies m.insert(k, v).contains_key(#[trigger] s2[i]) by {
            if i < s.len() {
                assert(s2[i] == s[i]);
            }
        }
        assert(!s.contains(k));
    }
}

/// Rebuilding a map from its keys in a listing and its entries in the same order gives the
/// map back.
pub proof fn lemma_rebuild_side<K>(order: Seq<K>, m: Map<K, Entry>, vals: Seq<Entry>)
    requires
        lists_keys(order, m),
        m.dom().finite(),
        vals.len() == order.len(),
        forall|i: int| 0 <= i < vals.len() ==> vals[i] == m[#[trigger] order[i]],
    ensures
        map_of_pairs(order, vals, order.len()) == m,
{
    lemma_map_of_pairs(order, vals, order.len());
    let r = map_of_pairs(order, vals, order.len());
    assert forall|k: K| r.contains_key(k) <==> m.contains_key(k) by {
        if m.contains_key(k) {
            let i = choose|i: int| 0 <= i < order.len() && order[i] == k;
            assert(r.contains_key(order[i]));
        }
        if r.contains_key(k) {
            let i = choose|i: int| 0 <= i < order.len() && order[i] == k;
            assert(m.contains_key(order[i]));
        }
    }
    assert forall|k: K| r.contains_key(k) implies r[k] == m[k] by {
        let i = choose|i: int| 0 <= i < order.len() && order[i] == k;
        assert(r[order[i]] == vals[i]);
    }
    assert(r =~= m);
}

/// Facts on the map built from a sequence of pairs: it is finite, holds at most `n` keys,
/// and holds exactly the first `n` keys. When those keys are pairwise distinct it holds `n`
/// of them, each with its own value.
pub proof fn lemma_map_of_pairs<K>(keys: Seq<K>, vals: Seq<Entry>, n: nat)
    requires
        n <= keys.len(),
        n <= vals.len(),
    ensures
        map_of_pairs(keys, vals, n).dom().finite(),
        map_of_pairs(keys, vals, n).len() <= n,
        forall|k: K| #[trigger]
            map_of_pairs(keys, vals, n).contains_key(k) <==> exists|i: int|
                0 <= i < n && keys[i] == k,
        (forall|i: int, j: int| 0 <= i < j < n ==> keys[i] != keys[j]) ==> {
            &&& map_of_pairs(keys, vals, n).len() == n
            &&& forall|i: int|
                0 <= i < n ==> #[trigger] map_of_pairs(keys, vals, n)[keys[i]] == vals[i]
        },
    decreases n,
{
    if n > 0 {
        let p = (n - 1) as nat;
        lemma_map_of_pairs(keys, vals, p);
        let m = map_of_pairs(keys, vals, p);
        let k = keys[n - 1];
        assert(m.insert(k, vals[n - 1]).dom() =~= m.dom().insert(k));
        assert forall|x: K| #[trigger]
            map_of_pairs(keys, vals, n).contains_key(x) <==> exists|i: int|
                0 <= i < n && keys[i] == x by {
            if x == k {
                assert(keys[n - 1] == x);
            }
        }
        if forall|i: int, j: int| 0 <= i < j < n ==> keys[i] != keys[j] {
            assert(!m.contains_key(k)) by {
                if m.contains_key(k) {
                    let i = choose|i: int| 0 <= i < p && keys[i] == k;
                    assert(keys[i] != keys[n - 1]);
                }
            }
            assert forall|i: int| 0 <= i < n implies #[trigger] map_of_pairs(keys, vals, n)[keys[i]]
                == vals[i] by {
                if i < p {
                    assert(keys[i] != keys[n - 1]);
                }
            }
        }
    }
}

/// Keys that are pairwise distinct are kept in their own order.
pub proof fn lemma_order_of_distinct<K>(keys: Seq<K>, n: nat)
    requires
        n <= keys.len(),
        forall|i: int, j: int| 0 <= i < j < n ==> keys[i] != keys[j],
    ensures
        order_of(keys, n) == keys.take(n as int),
    decreases n,
{
    if n > 0 {
        lemma_order_of_distinct(keys, (n - 1) as nat);
        let p = keys.take(n - 1);
        assert(!p.contains(keys[n - 1])) by {
            if p.contains(keys[n - 1]) {
                let i = choose|i: int| 0 <= i < p.len() && p[i] == keys[n - 1];
                assert(keys[i] != keys[n - 1]);
            }
        }
        assert(p.push(keys[n - 1]) =~= keys.take(n as int));
    } else {
        assert(keys.take(0) =~= Seq::<K>::empty());
    }
}

/// After appending pairwise distinct identifiers with pairwise distinct names, each
/// identifier and its name both lead to the entry appended with them, the table passes its
/// integrity check, and both sides keep the order of the appends (so the table is aligned).
pub proof fn lemma_appends_agree(ids: Seq<i32>, names: Seq<Seq<char>>, entries: Seq<Entry>)
    requires
        ids.len() == names.len(),
        names.len() == entries.len(),
        ids.no_duplicates(),
        names.no_duplicates(),
    ensures
        forall|k: int|
            0 <= k < ids.len() ==> {
                &&& #[trigger] map_of_pairs(ids, entries, ids.len())[ids[k]] == entries[k]
                &&& map_of_pairs(names, entries, ids.len())[names[k]] == entries[k]
            },
        integral(map_of_pairs(ids, entries, ids.len()), map_of_pairs(names, entries, ids.len())),
        order_of(ids, ids.len()) == ids,
        order_of(names, names.len()) == names,
{
    lemma_order_of_distinct(ids, ids.len());
    lemma_order_of_distinct(names, names.len());
    assert(ids.take(ids.len() as int) =~= ids);
    assert(names.take(names.len() as int) =~= names);
    let n = ids.len();
    lemma_map_of_pairs(ids, entries, n);
    lemma_map_of_pairs(names, entries, n);
    let mi = map_of_pairs(ids, entries, n);
    let mn = map_of_pairs(names, entries, n);
    assert forall|k: int| 0 <= k < n implies #[trigger] mi[ids[k]] == entries[k] && mn[names[k]]
        == entries[k] by {
        assert(mi[ids[k]] == entries[k]);
        assert(mn[names[k]] == entries[k]);
    }
    assert forall|k: i32| #[trigger] mi.contains_key(k) implies mn.contains_value(mi[k]) by {
        let i = choose|i: int| 0 <= i < n && ids[i] == k;
        assert(mi[ids[i]] == entries[i]);
        assert(mn[names[i]] == entries[i]);
        assert(mn.contains_key(names[i]));
    }
    assert forall|k: Seq<char>| #[trigger] mn.contains_key(k) implies mi.contains_value(mn[k]) by {
        let i = choose|i: int| 0 <= i < n && names[i] == k;
        assert(mi[ids[i]] == entries[i]);
        assert(mn[names[i]] == entries[i]);
        assert(mi.contains_key(ids[i]));
    }
}

impl LookUpTable {
    /// The table's own invariant: finite sides, each within capacity.
    pub open spec fn wf(self) -> bool {
        &&& ids_of(self).dom().finite()
        &&& names_of(self).dom().finite()
        &&& ids_of(self).len() <= MAX_LUT_ENTRIES
        &&& names_of(self).len() <= MAX_LUT_ENTRIES
        &&& lists_keys(id_order(self), ids_of(self))
        &&& lists_keys(name_order(self), names_of(self))
    }

    /// Both sides hold as many keys, and their entries agree key by key in the table's order.
    pub open spec fn aligned(self) -> bool {
        &&& id_order(self).len() == name_order(self).len()
        &&& forall|i: int|
            0 <= i < id_order(self).len() ==> names_of(self)[name_order(self)[i]] == ids_of(
                self,
            )[#[trigger] id_order(self)[i]]
    }

    /// The entries as encoded: those of the side that holds more keys (identifiers on a
    /// tie), in that side's order.
    pub open spec fn encoded_entries(self) -> Seq<Entry> {
        if ids_of(self).len() >= names_of(self).len() {
            id_order(self).map_values(|k: i32| ids_of(self)[k])
        } else {
            name_order(self).map_values(|k: Seq<char>| names_of(self)[k])
        }
    }

    /// Inserting `id` keeps within capacity.
    pub open spec fn id_fits(self, id: i32) -> bool {
        ids_of(self).contains_key(id) || ids_of(self).len() < MAX_LUT_ENTRIES
    }

    /// Inserting `name` keeps within capacity.
    pub open spec fn name_fits(self, name: Seq<char>) -> bool {
        names_of(self).contains_key(name) || names_of(self).len() < MAX_LUT_ENTRIES
    }

    /// Adds `entry` under both `id` and `name`. The identifier side is filled first; if
    /// either side is full, the error says so and that side is left as it was.
    pub fn append(&mut self, id: i32, name: &str, entry: Entry) -> (r: Result<(), AniseError>)
        requires
            old(self).wf(),
        ensures
            final(self).wf(),
            r is Ok <==> old(self).id_fits(id) && old(self).name_fits(name@),
            ids_of(*final(self)) == (if old(self).id_fits(id) {
                ids_of(*old(self)).insert(id, entry)
            } else {
                ids_of(*old(self))
            }),
            names_of(*final(self)) == (if old(self).id_fits(id) && old(self).name_fits(name@) {
                names_of(*old(self)).insert(name@, entry)
            } else {
                names_of(*old(self))
            }),
            id_order(*final(self)) == (if old(self).id_fits(id) && !ids_of(*old(self)).contains_key(
                id,
            ) {
                id_order(*old(self)).push(id)
            } else {
                id_order(*old(self))
            }),
            name_order(*final(self)) == (if old(self).id_fits(id) && old(self).name_fits(name@)
                && !names_of(*old(self)).contains_key(name@) {
                name_order(*old(self)).push(name@)
            } else {
                name_order(*old(self))
            }),
    {
        self.append_id(id, entry)?;
        self.append_name(name, entry)
    }

    /// Adds `entry` under `id` only.
    pub fn append_id(&mut self, id: i32, entry: Entry) -> (r: Result<(), AniseError>)
        requires
            old(self).wf(),
        ensures
            final(self).wf(),
            r is Ok <==> old(self).id_fits(id),
            ids_of(*final(self)) == (if old(self).id_fits(id) {
                ids_of(*old(self)).insert(id, entry)
            } else {
                ids_of(*old(self))
            }),
            names_of(*final(self)) == names_of(*old(self)),
            id_order(*final(self)) == (if old(self).id_fits(id) && !ids_of(*old(self)).contains_key(
                id,
            ) {
                id_order(*old(self)).push(id)
            } else {
                id_order(*old(self))
            }),
            name_order(*final(self)) == name_order(*old(self)),
    {
        proof {
            lemma_listing_insert(id_order(*old(self)), ids_of(*old(self)), id, entry);
        }
        if self.insert_id(id, entry) {
            assert(ids_of(*self).dom() =~= ids_of(*old(self)).dom().insert(id));
            Ok(())
        } else {
            Err(AniseError::StructureIsFull)
        }
    }

    /// Adds `entry` under `name` only.
    pub fn append_name(&mut self, name: &str, entry: Entry) -> (r: Result<(), AniseError>)
        requires
            old(self).wf(),
        ensures
            final(self).wf(),
            r is Ok <==> old(self).name_fits(name@),
            names_of(*final(self)) == (if old(self).name_fits(name@) {
                names_of(*old(self)).insert(name@, entry)
            } else {
                names_of(*old(self))
            }),
            ids_of(*final(self)) == ids_of(*old(self)),
            name_order(*final(self)) == (if old(self).name_fits(name@) && !names_of(
                *old(self),
            ).contains_key(name@) {
                name_order(*old(self)).push(name@)
            } else {
                name_order(*old(self))
            }),
            id_order(*final(self)) == id_order(*old(self)),
    {
        proof {
            lemma_listing_insert(name_order(*old(self)), names_of(*old(self)), name@, entry);
        }
        if self.insert_name(name, entry) {
            assert(names_of(*self).dom() =~= names_of(*old(self)).dom().insert(name@));
            Ok(())
        } else {
            Err(AniseError::StructureIsFull)
        }
    }

    /// Whether both sides agree (see [integral]).
    #[verifier::loop_isolation(false)]
    pub fn check_integrity(&self) -> (r: bool)
        requires
            self.wf(),
        ensures
            r == integral(ids_of(*self), names_of(*self)),
    {
        let ids = self.id_pairs();
        let names = self.name_pairs();
        let ghost id_keys = ids@.map_values(|p: (i32, Entry)| p.0);
        let ghost name_keys = names@.map_values(|p: (String, Entry)| p.0@);
        if ids.len() == 0 || names.len() == 0 {
            true
        } else if ids.len() != names.len() {
            false
        } else {
            let mut i: usize = 0;
            while i < ids.len()
                invariant
                    0 <= i <= ids@.len(),
                    forall|k: int| 0 <= k < i ==> names_of(*self).contains_value(#[trigger] ids@[k].1),
                decreases ids.len() - i,
            {
                let e = ids[i].1;
                let mut found = false;
                let mut j: usize = 0;
                while j < names.len()
                    invariant
                        0 <= j <= names@.len(),
                        found ==> names_of(*self).contains_value(e),
                        !found ==> forall|m: int| 0 <= m < j ==> (#[trigger] names@[m]).1 != e,
                    decreases names.len() - j,
                {
                    if names[j].1 == e {
                        assert(name_keys[j as int] == names@[j as int].0@);
                        assert(names_of(*self).contains_key(names@[j as int].0@));
                        found = true;
                    }
                    j += 1;
                }
                if !found {
                    proof {
                        assert forall|k: Seq<char>| names_of(*self).contains_key(k) implies names_of(
                            *self,
                        )[k] != e by {
                            let m = choose|m: int| 0 <= m < name_keys.len() && name_keys[m] == k;
                            assert(names@[m].1 == names_of(*self)[names@[m].0@]);
                        }
                        assert(ids_of(*self).contains_key(id_keys[i as int]));
                        assert(ids_of(*self)[ids@[i as int].0] == ids@[i as int].1);
                    }
                    return false;
                }
                i += 1;
            }
            proof {
                assert forall|k: i32| #[trigger] ids_of(*self).contains_key(k) implies names_of(
                    *self,
                ).contains_value(ids_of(*self)[k]) by {
                    let m = choose|m: int| 0 <= m < id_keys.len() && id_keys[m] == k;
                    assert(ids@[m].1 == ids_of(*self)[ids@[m].0]);
                    assert(names_of(*self).contains_value(ids@[m].1));
                }
            }
            let mut i: usize = 0;
            while i < names.len()
                invariant
                    0 <= i <= names@.len(),
                    forall|k: int| 0 <= k < i ==> ids_of(*self).contains_value(#[trigger] names@[k].1),
                    forall|k: i32| #[trigger] ids_of(*self).contains_key(k) ==> names_of(
                        *self,
                    ).contains_value(ids_of(*self)[k]),
                decreases names.len() - i,
            {
                let e = names[i].1;
                let mut found = false;
                let mut j: usize = 0;
                while j < ids.len()
                    invariant
                        0 <= j <= ids@.len(),
                        found ==> ids_of(*self).contains_value(e),
                        !found ==> forall|m: int| 0 <= m < j ==> (#[trigger] ids@[m]).1 != e,
                    decreases ids.len() - j,
                {
                    if ids[j].1 == e {
                        assert(id_keys[j as int] == ids@[j as int].0);
                        assert(ids_of(*self).contains_key(ids@[j as int].0));
                        found = true;
                    }
                    j += 1;
                }
                if !found {
                    proof {
                        assert forall|k: i32| ids_of(*self).contains_key(k) implies ids_of(*self)[k]
                            != e by {
                            let m = choose|m: int| 0 <= m < id_keys.len() && id_keys[m] == k;
                            assert(ids@[m].1 == ids_of(*self)[ids@[m].0]);
                        }
                        assert(names_of(*self).contains_key(name_keys[i as int]));
                        assert(names_of(*self)[names@[i as int].0@] == names@[i as int].1);
                    }
                    return false;
                }
                i += 1;
            }
            proof {
                assert forall|k: Seq<char>| #[trigger] names_of(*self).contains_key(k) implies ids_of(
                    *self,
                ).contains_value(names_of(*self)[k]) by {
                    let m = choose|m: int| 0 <= m < name_keys.len() && name_keys[m] == k;
                    assert(names@[m].1 == names_of(*self)[names@[m].0@]);
                    assert(ids_of(*self).contains_value(names@[m].1));
                }
            }
            true
        }
    }

    /// The three parallel sequences that the table is encoded as: its identifiers, its
    /// names, and the entries of whichever side holds more keys (identifiers on a tie),
    /// in that side's order.
    #[verifier::loop_isolation(false)]
    pub fn der_encoding(&self) -> (r: (Vec<i32>, Vec<String>, Vec<Entry>))
        requires
            self.wf(),
        ensures
            r.0@ == id_order(*self),
            r.1@.map_values(|s: String| s@) == name_order(*self),
            r.2@ == self.encoded_entries(),
    {
        let id_pairs = self.id_pairs();
        let name_pairs = self.name_pairs();
        let use_id = id_pairs.len() >= name_pairs.len();
        let mut ids: Vec<i32> = Vec::new();
        let mut names: Vec<String> = Vec::new();
        let mut entries: Vec<Entry> = Vec::new();
        let mut i: usize = 0;
        while i < id_pairs.len()
            invariant
                0 <= i <= id_pairs@.len(),
                ids@.len() == i,
                forall|k: int| 0 <= k < i ==> ids@[k] == (#[trigger] id_pairs@[k]).0,
                use_id ==> entries@.len() == i,
                use_id ==> forall|k: int| 0 <= k < i ==> entries@[k] == (#[trigger] id_pairs@[k]).1,
                !use_id ==> entries@.len() == 0,
            decreases id_pairs.len() - i,
        {
            ids.push(id_pairs[i].0);
            if use_id {
                entries.push(id_pairs[i].1);
            }
            i += 1;
        }
        let mut j: usize = 0;
        while j < name_pairs.len()
            invariant
                0 <= j <= name_pairs@.len(),
                names@.len() == j,
                forall|k: int| 0 <= k < j ==> names@[k]@ == (#[trigger] name_pairs@[k]).0@,
                use_id ==> entries@.len() == id_pairs@.len(),
                use_id ==> forall|k: int|
                    0 <= k < id_pairs@.len() ==> entries@[k] == (#[trigger] id_pairs@[k]).1,
                !use_id ==> entries@.len() == j,
                !use_id ==> forall|k: int|
                    0 <= k < j ==> entries@[k] == (#[trigger] name_pairs@[k]).1,
            decreases name_pairs.len() - j,
        {
            names.push(name_pairs[j].0.clone());
            if !use_id {
                entries.push(name_pairs[j].1);
            }
            j += 1;
        }
        assert(ids@ =~= id_pairs@.map_values(|p: (i32, Entry)| p.0));
        assert(id_pairs@.len() == ids_of(*self).len());
        assert(name_pairs@.len() == names_of(*self).len());
        assert forall|k: int| 0 <= k < id_pairs@.len() implies ids_of(*self)[#[trigger] ids@[k]]
            == id_pairs@[k].1 by {
            assert(ids_of(*self)[id_pairs@[k].0] == id_pairs@[k].1);
        }
        assert forall|k: int| 0 <= k < name_pairs@.len() implies names_of(*self)[(
        #[trigger] names@[k])@] == name_pairs@[k].1 by {
            assert(names_of(*self)[name_pairs@[k].0@] == name_pairs@[k].1);
        }
        assert(names@.map_values(|s: String| s@) =~= name_pairs@.map_values(
            |p: (String, Entry)| p.0@,
        ));
        if use_id {
            assert forall|k: int| 0 <= k < entries@.len() implies entries@[k] == ids_of(
                *self,
            )[#[trigger] ids@[k]] by {
                assert(entries@[k] == id_pairs@[k].1);
            }
        } else {
            assert forall|k: int| 0 <= k < entries@.len() implies entries@[k] == names_of(
                *self,
            )[(#[trigger] names@[k])@] by {
                assert(entries@[k] == name_pairs@[k].1);
            }
        }
        proof {
            if use_id {
                assert(entries@ =~= self.encoded_entries());
            } else {
                assert(entries@ =~= self.encoded_entries());
            }
        }
        (ids, names, entries)
    }

    /// Rebuilds a table from the three parallel sequences of its encoding: identifiers are
    /// paired with entries, then names with entries, each as far as the shorter of the two
    /// sequences goes.
    #[verifier::loop_isolation(false)]
    pub fn from_sequences(ids: &Vec<i32>, names: &Vec<String>, entries: &Vec<Entry>) -> (r: Self)
        requires
            ids@.len() <= MAX_LUT_ENTRIES,
            names@.len() <= MAX_LUT_ENTRIES,
        ensures
            r.wf(),
            ids_of(r) == map_of_pairs(
                ids@,
                entries@,
                if ids@.len() <= entries@.len() {
                    ids@.len()
                } else {
                    entries@.len()
                },
            ),
            names_of(r) == map_of_pairs(
                names@.map_values(|s: String| s@),
                entries@,
                if names@.len() <= entries@.len() {
                    names@.len()
                } else {
                    entries@.len()
                },
            ),
            id_order(r) == order_of(
                ids@,
                if ids@.len() <= entries@.len() {
                    ids@.len()
                } else {
                    entries@.len()
                },
            ),
            name_order(r) == order_of(
                names@.map_values(|s: String| s@),
                if names@.len() <= entries@.len() {
                    names@.len()
                } else {
                    entries@.len()
                },
            ),
    {
        let ghost name_keys = names@.map_values(|s: String| s@);
        let mut lut = Self::default();
        assert(lists_keys(id_order(lut), ids_of(lut)));
        assert(lists_keys(name_order(lut), names_of(lut)));
        let mut i: usize = 0;
        while i < ids.len() && i < entries.len()
            invariant
                0 <= i <= ids@.len(),
                i <= entries@.len(),
                ids_of(lut) == map_of_pairs(ids@, entries@, i as nat),
                names_of(lut) =~= Map::<Seq<char>, Entry>::empty(),
                id_order(lut) == order_of(ids@, i as nat),
                name_order(lut).len() == 0,
                lists_keys(id_order(lut), ids_of(lut)),
            decreases ids.len() - i,
        {
            proof {
                lemma_map_of_pairs(ids@, entries@, i as nat);
                lemma_listing_insert(id_order(lut), ids_of(lut), ids@[i as int], entries@[i as int]);
            }
            lut.insert_id(ids[i], entries[i]);
            i += 1;
        }
        proof {
            lemma_map_of_pairs(ids@, entries@, i as nat);
        }
        let mut j: usize = 0;
        while j < names.len() && j < entries.len()
            invariant
                0 <= j <= names@.len(),
                j <= entries@.len(),
                ids_of(lut) == map_of_pairs(ids@, entries@, i as nat),
                names_of(lut) == map_of_pairs(name_keys, entries@, j as nat),
                id_order(lut) == order_of(ids@, i as nat),
                name_order(lut) == order_of(name_keys, j as nat),
                lists_keys(id_order(lut), ids_of(lut)),
                lists_keys(name_order(lut), names_of(lut)),
            decreases names.len() - j,
        {
            proof {
                lemma_map_of_pairs(name_keys, entries@, j as nat);
                lemma_listing_insert(name_order(lut), names_of(lut), name_keys[j as int], entries@[j as int]);
            }
            lut.insert_name(names[j].as_str(), entries[j]);
            j += 1;
        }
        proof {
            lemma_map_of_pairs(ids@, entries@, i as nat);
            lemma_map_of_pairs(name_keys, entries@, j as nat);
        }
        lut
    }

    /// Relies on heapless::IndexMap::insert on the identifier side: a present key takes the
    /// new value; an absent one is added while the map holds fewer keys than its capacity;
    /// otherwise the map is left as it was and the pair is handed back.
    #[verifier::external_body]
    fn insert_id(&mut self, id: i32, entry: Entry) -> (r: bool)
        ensures
            r == old(self).id_fits(id),
            r ==> ids_of(*final(self)) == ids_of(*old(self)).insert(id, entry),
            !r ==> ids_of(*final(self)) == ids_of(*old(self)),
            names_of(*final(self)) == names_of(*old(self)),
            id_order(*final(self)) == (if r && !ids_of(*old(self)).contains_key(id) {
                id_order(*old(self)).push(id)
            } else {
                id_order(*old(self))
            }),
            name_order(*final(self)) == name_order(*old(self)),
    {
        self.by_id.insert(id, entry).is_ok()
    }

    /// Relies on heapless::IndexMap::insert on the name side, as `insert_id` does.
    #[verifier::external_body]
    fn insert_name(&mut self, name: &str, entry: Entry) -> (r: bool)
        ensures
            r == old(self).name_fits(name@),
            r ==> names_of(*final(self)) == names_of(*old(self)).insert(name@, entry),
            !r ==> names_of(*final(self)) == names_of(*old(self)),
            ids_of(*final(self)) == ids_of(*old(self)),
            name_order(*final(self)) == (if r && !names_of(*old(self)).contains_key(name@) {
                name_order(*old(self)).push(name@)
            } else {
                name_order(*old(self))
            }),
            id_order(*final(self)) == id_order(*old(self)),
    {
        self.by_name.insert(name.to_string(), entry).is_ok()
    }

    /// Relies on heapless::IndexMap::iter on the identifier side: each pair once, in
    /// insertion order.
    #[verifier::external_body]
    fn id_pairs(&self) -> (r: Vec<(i32, Entry)>)
        ensures
            r@.map_values(|p: (i32, Entry)| p.0) == id_order(*self),
            forall|i: int| 0 <= i < r@.len() ==> ids_of(*self)[r@[i].0] == #[trigger] r@[i].1,
    {
        self.by_id.iter().map(|(k, v)| (*k, *v)).collect()
    }

    /// Relies on heapless::IndexMap::iter on the name side: each pair once, in insertion
    /// order.
    #[verifier::external_body]
    fn name_pairs(&self) -> (r: Vec<(String, Entry)>)
        ensures
            r@.map_values(|p: (String, Entry)| p.0@) == name_order(*self),
            forall|i: int| 0 <= i < r@.len() ==> names_of(*self)[r@[i].0@] == #[trigger] r@[i].1,
    {
        self.by_name.iter().map(|(k, v)| (k.clone(), *v)).collect()
    }

    /// Relies on heapless::IndexMap::get on the identifier side.
    #[verifier::external_body]
    fn lookup_id(&self, id: i32) -> (r: Option<Entry>)
        ensures
            r == (if ids_of(*self).contains_key(id) {
                Some(ids_of(*self)[id])
            } else {
                None
            }),
    {
        self.by_id.get(&id).copied()
    }

    /// Relies on heapless::IndexMap::get on the name side.
    #[verifier::external_body]
    fn lookup_name(&self, name: &str) -> (r: Option<Entry>)
        ensures
            r == (if names_of(*self).contains_key(name@) {
                Some(names_of(*self)[name@])
            } else {
                None
            }),
    {
        self.by_name.get(name).copied()
    }

    /// The entry held under `id`, if any.
    pub fn get_by_id(&self, id: i32) -> (r: Option<Entry>)
        ensures
            r == (if ids_of(*self).contains_key(id) {
                Some(ids_of(*self)[id])
            } else {
                None
            }),
    {
        self.lookup_id(id)
    }

    /// The entry held under `name`, if any.
    pub fn get_by_name(&self, name: &str) -> (r: Option<Entry>)
        ensures
            r == (if names_of(*self).contains_key(name@) {
                Some(names_of(*self)[name@])
            } else {
                None
            }),
    {
        self.lookup_name(name)
    }
}

} // verus!
