//! The flow-field cache: owns the passability set and a mapping from target
//! cell to built field, generating on miss and serving on hit.
//!
//! Terrain edits only affect future builds: already-cached fields are left
//! untouched by design, and the janitor evicts entries once no live actor
//! targets them.

use vstd::prelude::*;

use crate::field::{build_result_spec, entry_view, FieldView, FlowError, FlowField};
use crate::grid::{cell_of, cell_set, contains_cell, GridCell, WorldPos, GRID_SIZE, MAX_SIDE};

verus! {

/// One cached slot: the target cell and the build outcome recorded for it.
type CacheEntry = (GridCell, Result<FlowField, FlowError>);

/// Whether the keys of a cache listing are pairwise distinct.
spec fn keys_unique(s: Seq<CacheEntry>) -> bool {
    forall|i: int, j: int| 0 <= i < j < s.len() ==> s[i].0@ != s[j].0@
}

/// Whether a cache listing holds an entry for a target.
spec fn seq_has_key(s: Seq<CacheEntry>, c: (int, int)) -> bool {
    exists|i: int| 0 <= i < s.len() && #[trigger] s[i].0@ == c
}

/// The slot of the entry for a target.
spec fn key_index(s: Seq<CacheEntry>, c: (int, int)) -> int {
    choose|i: int| 0 <= i < s.len() && #[trigger] s[i].0@ == c
}

/// The recorded build outcome for a target.
spec fn seq_entry(s: Seq<CacheEntry>, c: (int, int)) -> Result<FieldView, FlowError> {
    entry_view(s[key_index(s, c)].1)
}

/// With unique keys, the entry at any slot is the entry of its own key.
proof fn lemma_entry_at(s: Seq<CacheEntry>, j: int)
    requires
        keys_unique(s),
        0 <= j < s.len(),
    ensures
        seq_has_key(s, s[j].0@),
        key_index(s, s[j].0@) == j,
        seq_entry(s, s[j].0@) == entry_view(s[j].1),
{
    assert(seq_has_key(s, s[j].0@));
    let i = key_index(s, s[j].0@);
    if i != j {
        if i < j {
            assert(s[i].0@ != s[j].0@);
        } else {
            assert(s[j].0@ != s[i].0@);
        }
    }
}

/// Whether a cached entry fits a cache of side length `n`: a built field is
/// well formed, has that side length and belongs to its key.
spec fn entry_ok(n: int, e: CacheEntry) -> bool {
    match e.1 {
        Ok(f) => f@.wf() && f@.n == n && f@.target == e.0@,
        Err(_) => true,
    }
}

/// The flow-field cache.
pub struct FlowFields {
    n: usize,
    fields: Vec<CacheEntry>,
    impassable: Vec<GridCell>,
}

impl FlowFields {
    /// The side length, in cells, of the fields this cache builds.
    pub closed spec fn side(self) -> int {
        self.n as int
    }

    /// The set of cells currently marked impassable.
    pub closed spec fn impassable_set(self) -> Set<(int, int)> {
        cell_set(self.impassable@)
    }

    /// Whether a build outcome is cached for a target.
    pub closed spec fn has_field(self, c: (int, int)) -> bool {
        seq_has_key(self.fields@, c)
    }

    /// The cached build outcome for a target.
    pub closed spec fn field_entry(self, c: (int, int)) -> Result<FieldView, FlowError> {
        seq_entry(self.fields@, c)
    }

    /// How many targets have a cached entry.
    pub closed spec fn entry_count(self) -> int {
        self.fields@.len() as int
    }

    /// Cache well-formedness: side length in range, pairwise distinct keys
    /// and impassable cells, and every cached field built for its key.
    pub closed spec fn wf(self) -> bool {
        &&& 1 <= self.n <= MAX_SIDE
        &&& keys_unique(self.fields@)
        &&& (forall|i: int|
            0 <= i < self.fields@.len() ==> entry_ok(self.n as int, #[trigger] self.fields@[i]))
        &&& (forall|i: int, j: int|
            0 <= i < j < self.impassable@.len() ==> self.impassable@[i]@ != self.impassable@[j]@)
    }

    /// An empty cache building fields of side length `n`.
    pub fn new(n: usize) -> (r: Self)
        requires
            1 <= n <= MAX_SIDE,
        ensures
            r.wf(),
            r.side() == n as int,
            r.entry_count() == 0,
            forall|c: (int, int)| !r.has_field(c),
            r.impassable_set() == Set::<(int, int)>::empty(),
    {
        let r = FlowFields { n, fields: Vec::new(), impassable: Vec::new() };
        proof {
            assert(r.impassable_set() =~= Set::<(int, int)>::empty());
        }
        r
    }

    /// Locate the cached slot for a target, if any.
    fn find_entry_index(&self, target: &GridCell) -> (r: Option<usize>)
        requires
            self.wf(),
        ensures
            r matches Some(i) ==> (i as int) < self.fields@.len() && self.fields@[i as int].0@
                == target@ && self.has_field(target@) && self.field_entry(target@) == entry_view(
                self.fields@[i as int].1,
            ),
            r is None ==> !self.has_field(target@),
    {
        let mut i: usize = 0;
        while i < self.fields.len()
            invariant
                self.wf(),
                i <= self.fields@.len(),
                forall|j: int| 0 <= j < i ==> self.fields@[j].0@ != target@,
            decreases self.fields@.len() - i,
        {
            let key = self.fields[i].0;
            if key.x == target.x && key.y == target.y {
                proof {
                    lemma_entry_at(self.fields@, i as int);
                }
                return Some(i);
            }
            i = i + 1;
        }
        proof {
            if self.has_field(target@) {
                let j = choose|j: int|
                    0 <= j < self.fields@.len() && #[trigger] self.fields@[j].0@ == target@;
                assert(false);
            }
        }
        None
    }

    /// Mark a cell impassable for future builds.  Already-cached fields are
    /// deliberately left untouched.
    pub fn set_impassable(&mut self, point: GridCell)
        requires
            old(self).wf(),
        ensures
            final(self).wf(),
            final(self).side() == old(self).side(),
            final(self).impassable_set() == old(self).impassable_set().insert(point@),
            forall|c: (int, int)| final(self).has_field(c) == old(self).has_field(c),
            forall|c: (int, int)|
                old(self).has_field(c) ==> final(self).field_entry(c) == old(self).field_entry(c),
            final(self).entry_count() == old(self).entry_count(),
    {
        let ghost s0 = self.impassable@;
        if !contains_cell(&self.impassable, &point) {
            self.impassable.push(point);
            proof {
                assert forall|i: int, j: int|
                    0 <= i < j < self.impassable@.len() implies self.impassable@[i]@
                    != self.impassable@[j]@ by {
                    if j < s0.len() {
                        assert(self.impassable@[i]@ == s0[i]@ && self.impassable@[j]@ == s0[j]@);
                    } else {
                        assert(self.impassable@[j]@ == point@);
                        assert(!cell_set(s0).contains(point@));
                        assert(self.impassable@[i]@ == s0[i]@);
                        assert(cell_set(s0).contains(s0[i]@));
                    }
                }
                assert forall|c: (int, int)|
                    cell_set(self.impassable@).contains(c) == cell_set(s0).insert(
                    point@,
                ).contains(c) by {
                    if cell_set(self.impassable@).contains(c) {
                        let i = choose|i: int|
                            0 <= i < self.impassable@.len() && #[trigger] self.impassable@[i]@
                                == c;
                        if i < s0.len() {
                            assert(cell_set(s0).contains(c));
                        }
                    }
                    if cell_set(s0).contains(c) {
                        let i = choose|i: int| 0 <= i < s0.len() && #[trigger] s0[i]@ == c;
                        assert(self.impassable@[i]@ == c);
                        assert(cell_set(self.impassable@).contains(c));
                    }
                    if c == point@ {
                        assert(self.impassable@[s0.len() as int]@ == c);
                        assert(cell_set(self.impassable@).contains(c));
                    }
                }
                assert(cell_set(self.impassable@) =~= cell_set(s0).insert(point@));
            }
        } else {
            proof {
                assert(cell_set(s0).contains(point@));
                assert(cell_set(s0) =~= cell_set(s0).insert(point@));
            }
        }
    }

    /// Mark a cell passable again for future builds.  Already-cached fields
    /// are deliberately left untouched.
    pub fn set_passable(&mut self, point: &GridCell)
        requires
            old(self).wf(),
        ensures
            final(self).wf(),
            final(self).side() == old(self).side(),
            final(self).impassable_set() == old(self).impassable_set().remove(point@),
            forall|c: (int, int)| final(self).has_field(c) == old(self).has_field(c),
            forall|c: (int, int)|
                old(self).has_field(c) ==> final(self).field_entry(c) == old(self).field_entry(c),
            final(self).entry_count() == old(self).entry_count(),
    {
        let ghost s0 = self.impassable@;
        let mut i: usize = 0;
        while i < self.impassable.len()
            invariant
                old(self).wf(),
                self.n == old(self).n,
                self.fields@ == old(self).fields@,
                self.impassable@ == s0,
                s0 == old(self).impassable@,
                i <= s0.len(),
                forall|j: int| 0 <= j < i ==> s0[j]@ != point@,
            decreases s0.len() - i,
        {
            let key = self.impassable[i];
            if key.x == point.x && key.y == point.y {
                self.impassable.remove(i);
                proof {
                    let s1 = self.impassable@;
                    assert(s1 == s0.remove(i as int));
                    assert forall|a: int, b: int| 0 <= a < b < s1.len() implies s1[a]@
                        != s1[b]@ by {
                        let a0: int = if a < i { a } else { a + 1 };
                        let b0: int = if b < i { b } else { b + 1 };
                        assert(s1[a]@ == s0[a0]@ && s1[b]@ == s0[b0]@);
                    }
                    assert forall|c: (int, int)|
                        cell_set(s1).contains(c) == cell_set(s0).remove(point@).contains(c) by {
                        if cell_set(s1).contains(c) {
                            let k = choose|k: int| 0 <= k < s1.len() && #[trigger] s1[k]@ == c;
                            let k0: int = if k < i {
                                k
                            } else {
                                k + 1
                            };
                            assert(s0[k0]@ == c);
                            assert(cell_set(s0).contains(c));
                            if c == point@ {
                                if k0 < i {
                                    assert(s0[k0]@ != point@);
                                } else {
                                    assert(s0[i as int]@ == point@ && k0 > i);
                                    assert(s0[k0]@ != s0[i as int]@);
                                }
                                assert(false);
                            }
                        }
                        if cell_set(s0).remove(point@).contains(c) {
                            let k = choose|k: int| 0 <= k < s0.len() && #[trigger] s0[k]@ == c;
                            assert(k != i);
                            let k1: int = if k < i {
                                k
                            } else {
                                k - 1
                            };
                            assert(s1[k1]@ == c);
                            assert(cell_set(s1).contains(c));
                        }
                    }
                    assert(cell_set(s1) =~= cell_set(s0).remove(point@));
                }
                return ;
            }
            i = i + 1;
        }
        proof {
            if cell_set(s0).contains(point@) {
                let k = choose|k: int| 0 <= k < s0.len() && #[trigger] s0[k]@ == point@;
                assert(false);
            }
            assert(cell_set(s0) =~= cell_set(s0).remove(point@));
        }
    }

    /// Whether the cell containing a world position is currently passable.
    /// This reads the passability set directly, so terrain edits show up
    /// immediately even while stale fields remain cached.
    pub fn is_walkable(&self, world_pos: &WorldPos) -> (r: bool)
        ensures
            r == !self.impassable_set().contains(cell_of(*world_pos)),
    {
        let grid_pos = FlowField::world_to_grid(world_pos);
        !contains_cell(&self.impassable, &grid_pos)
    }

    /// Read-only lookup for inspection: the cached field for a target, if
    /// one was built.
    pub fn get(&self, target: &GridCell) -> (r: Option<FlowField>)
        requires
            self.wf(),
        ensures
            r is Some <==> self.has_field(target@) && self.field_entry(target@) is Ok,
            r matches Some(f) ==> self.field_entry(target@)
                == Result::<FieldView, FlowError>::Ok(f@) && f@.wf() && f@.n == self.side()
                && f@.target == target@,
    {
        match self.find_entry_index(target) {
            Some(i) => match &self.fields[i].1 {
                Ok(f) => Some(f.clone()),
                Err(_) => None,
            },
            None => None,
        }
    }

    /// Serve the cached build outcome for a target, building and caching it
    /// first when absent.  Repeated calls with no intervening eviction
    /// return the same cached outcome and do no rebuild work.
    pub fn get_or_generate(&mut self, target: &GridCell) -> (r: Result<FlowField, FlowError>)
        requires
            old(self).wf(),
        ensures
            final(self).wf(),
            final(self).side() == old(self).side(),
            final(self).impassable_set() == old(self).impassable_set(),
            final(self).has_field(target@),
            entry_view(r) == final(self).field_entry(target@),
            r matches Ok(f) ==> f@.wf() && f@.n == old(self).side() && f@.target == target@,
            old(self).has_field(target@) ==> *final(self) == *old(self) && entry_view(r) == old(
                self,
            ).field_entry(target@),
            !old(self).has_field(target@) ==> {
                &&& build_result_spec(
                    old(self).side(),
                    old(self).impassable_set(),
                    target@,
                    entry_view(r),
                )
                &&& final(self).entry_count() == old(self).entry_count() + 1
            },
            forall|c: (int, int)|
                final(self).has_field(c) == (old(self).has_field(c) || c == target@),
            forall|c: (int, int)|
                old(self).has_field(c) ==> final(self).field_entry(c) == old(self).field_entry(c),
    {
        match self.find_entry_index(target) {
            Some(i) => {
                let r = match &self.fields[i].1 {
                    Ok(f) => Ok(f.clone()),
                    Err(e) => Err(*e),
                };
                proof {
                    assert(entry_view(r) == entry_view(self.fields@[i as int].1));
                    assert forall|c: (int, int)|
                        self.has_field(c) == (self.has_field(c) || c == target@) by {}
                }
                r
            },
            None => {
                let ghost s0 = self.fields@;
                let built = FlowField::build_flow_field(target, &self.impassable, self.n);
                let r = match built {
                    Ok(f) => {
                        let copy = f.clone();
                        self.fields.push((*target, Ok(copy)));
                        Ok(f)
                    },
                    Err(e) => {
                        self.fields.push((*target, Err(e)));
                        Err(e)
                    },
                };
                proof {
                    let s1 = self.fields@;
                    assert(s1.len() == s0.len() + 1);
                    assert(s1[s0.len() as int].0@ == target@);
                    assert(entry_view(s1[s0.len() as int].1) == entry_view(r));
                    assert forall|i: int, j: int| 0 <= i < j < s1.len() implies s1[i].0@
                        != s1[j].0@ by {
                        if j < s0.len() {
                            assert(s1[i].0@ == s0[i].0@ && s1[j].0@ == s0[j].0@);
                        } else {
                            assert(s1[j].0@ == target@);
                            assert(s1[i].0@ == s0[i].0@);
                            if s0[i].0@ == target@ {
                                assert(seq_has_key(s0, target@));
                                assert(false);
                            }
                        }
                    }
                    lemma_entry_at(s1, s0.len() as int);
                    assert forall|c: (int, int)|
                        seq_has_key(s1, c) == (seq_has_key(s0, c) || c == target@) by {
                        if seq_has_key(s1, c) {
                            let k = choose|k: int| 0 <= k < s1.len() && #[trigger] s1[k].0@ == c;
                            if k < s0.len() {
                                assert(s0[k].0@ == c);
                                assert(seq_has_key(s0, c));
                            }
                        }
                        if seq_has_key(s0, c) {
                            let k = choose|k: int| 0 <= k < s0.len() && #[trigger] s0[k].0@ == c;
                            assert(s1[k].0@ == c);
                            assert(seq_has_key(s1, c));
                        }
                        if c == target@ {
                            assert(s1[s0.len() as int].0@ == c);
                            assert(seq_has_key(s1, c));
                        }
                    }
                    assert forall|c: (int, int)| seq_has_key(s0, c) implies seq_entry(s1, c)
                        == seq_entry(s0, c) by {
                        let k = choose|k: int| 0 <= k < s0.len() && #[trigger] s0[k].0@ == c;
                        lemma_entry_at(s0, k);
                        lemma_entry_at(s1, k);
                        assert(s1[k] == s0[k]);
                    }
                    assert forall|i: int|
                        0 <= i < s1.len() implies entry_ok(
                        self.n as int,
                        #[trigger] s1[i],
                    ) by {
                        if i < s0.len() {
                            assert(s1[i] == s0[i]);
                        }
                    }
                }
                r
            },
        }
    }

    /// Evict every cached entry whose target is not in the live list.
    pub fn evict_except(&mut self, live: &Vec<GridCell>)
        requires
            old(self).wf(),
        ensures
            final(self).wf(),
            final(self).side() == old(self).side(),
            final(self).impassable_set() == old(self).impassable_set(),
            forall|c: (int, int)|
                final(self).has_field(c) == (old(self).has_field(c) && cell_set(live@).contains(
                    c,
                )),
            forall|c: (int, int)|
                final(self).has_field(c) ==> final(self).field_entry(c) == old(self).field_entry(
                    c,
                ),
            live@.len() == 0 ==> final(self).entry_count() == 0,
    {
        let ghost s0 = self.fields@;
        let mut kept: Vec<CacheEntry> = Vec::new();
        let mut i: usize = 0;
        while i < self.fields.len()
            invariant
                self.wf(),
                self.fields@ == s0,
                i <= s0.len(),
                forall|c: (int, int)|
                    seq_has_key(kept@, c) == (exists|j: int|
                        0 <= j < i && #[trigger] s0[j].0@ == c && cell_set(live@).contains(c)),
                forall|c: (int, int)|
                    seq_has_key(kept@, c) ==> seq_entry(kept@, c) == seq_entry(s0, c),
                keys_unique(kept@),
                forall|k: int|
                    0 <= k < kept@.len() ==> entry_ok(self.n as int, #[trigger] kept@[k]),
                live@.len() == 0 ==> kept@.len() == 0,
            decreases s0.len() - i,
        {
            let key = self.fields[i].0;
            let ghost kept0 = kept@;
            if contains_cell(live, &key) {
                let e = match &self.fields[i].1 {
                    Ok(f) => Ok(f.clone()),
                    Err(e) => Err(*e),
                };
                proof {
                    assert(entry_view(e) == entry_view(s0[i as int].1));
                }
                kept.push((key, e));
                proof {
                    let k1 = kept@;
                    assert(k1.len() == kept0.len() + 1);
                    assert(k1[kept0.len() as int].0@ == key@);
                    assert forall|a: int, b: int| 0 <= a < b < k1.len() implies k1[a].0@
                        != k1[b].0@ by {
                        if b < kept0.len() {
                            assert(k1[a].0@ == kept0[a].0@ && k1[b].0@ == kept0[b].0@);
                        } else {
                            assert(k1[a].0@ == kept0[a].0@);
                            if kept0[a].0@ == key@ {
                                assert(seq_has_key(kept0, key@));
                                let j = choose|j: int|
                                    0 <= j < i && #[trigger] s0[j].0@ == key@ && cell_set(
                                        live@,
                                    ).contains(key@);
                                assert(s0[j].0@ == s0[i as int].0@);
                                assert(false);
                            }
                        }
                    }
                    lemma_entry_at(k1, kept0.len() as int);
                    lemma_entry_at(s0, i as int);
                    assert forall|c: (int, int)|
                        seq_has_key(k1, c) == (exists|j: int|
                            0 <= j < i + 1 && #[trigger] s0[j].0@ == c && cell_set(live@).contains(
                                c,
                            )) by {
                        if seq_has_key(k1, c) {
                            let k = choose|k: int| 0 <= k < k1.len() && #[trigger] k1[k].0@ == c;
                            if k < kept0.len() {
                                assert(seq_has_key(kept0, c));
                                let j = choose|j: int|
                                    0 <= j < i && #[trigger] s0[j].0@ == c && cell_set(
                                        live@,
                                    ).contains(c);
                                assert(0 <= j < i + 1 && s0[j].0@ == c && cell_set(live@).contains(
                                    c,
                                ));
                            } else {
                                assert(c == key@);
                                assert(s0[i as int].0@ == c && cell_set(live@).contains(c));
                            }
                        }
                        if exists|j: int|
                            0 <= j < i + 1 && #[trigger] s0[j].0@ == c && cell_set(live@).contains(
                                c,
                            ) {
                            let j = choose|j: int|
                                0 <= j < i + 1 && #[trigger] s0[j].0@ == c && cell_set(
                                    live@,
                                ).contains(c);
                            if j < i {
                                assert(seq_has_key(kept0, c));
                                let k = choose|k: int|
                                    0 <= k < kept0.len() && #[trigger] kept0[k].0@ == c;
                                assert(k1[k].0@ == c);
                                assert(seq_has_key(k1, c));
                            } else {
                                assert(c == key@);
                                assert(seq_has_key(k1, c));
                            }
                        }
                    }
                    assert forall|c: (int, int)| seq_has_key(k1, c) implies seq_entry(k1, c)
                        == seq_entry(s0, c) by {
                        let k = choose|k: int| 0 <= k < k1.len() && #[trigger] k1[k].0@ == c;
                        if k < kept0.len() {
                            assert(kept0[k].0@ == c);
                            assert(seq_has_key(kept0, c));
                            lemma_entry_at(kept0, k);
                            lemma_entry_at(k1, k);
                            assert(k1[k] == kept0[k]);
                        } else {
                            assert(c == key@);
                            lemma_entry_at(k1, k);
                        }
                    }
                    assert forall|k: int|
                        0 <= k < k1.len() implies entry_ok(self.n as int, #[trigger] k1[k]) by {
                        if k < kept0.len() {
                            assert(k1[k] == kept0[k]);
                        } else {
                            assert(entry_ok(self.n as int, s0[i as int]));
                        }
                    }
                    assert(cell_set(live@).contains(key@));
                    if live@.len() == 0 {
                        let j = choose|j: int|
                            0 <= j < live@.len() && #[trigger] live@[j]@ == key@;
                        assert(false);
                    }
                }
            } else {
                proof {
                    assert(!cell_set(live@).contains(key@));
                    assert forall|c: (int, int)|
                        seq_has_key(kept@, c) == (exists|j: int|
                            0 <= j < i + 1 && #[trigger] s0[j].0@ == c && cell_set(live@).contains(
                                c,
                            )) by {
                        if exists|j: int|
                            0 <= j < i + 1 && #[trigger] s0[j].0@ == c && cell_set(live@).contains(
                                c,
                            ) {
                            let j = choose|j: int|
                                0 <= j < i + 1 && #[trigger] s0[j].0@ == c && cell_set(
                                    live@,
                                ).contains(c);
                            if j == i {
                                assert(c == key@);
                                assert(false);
                            }
                            assert(0 <= j < i && s0[j].0@ == c && cell_set(live@).contains(c));
                        }
                    }
                }
            }
            i = i + 1;
        }
        self.fields = kept;
        proof {
            assert forall|c: (int, int)|
                seq_has_key(self.fields@, c) == (seq_has_key(s0, c) && cell_set(live@).contains(
                c,
            )) by {
                if seq_has_key(s0, c) && cell_set(live@).contains(c) {
                    let j = choose|j: int| 0 <= j < s0.len() && #[trigger] s0[j].0@ == c;
                    assert(0 <= j < s0.len() && s0[j].0@ == c && cell_set(live@).contains(c));
                }
                if seq_has_key(self.fields@, c) {
                    let j = choose|j: int|
                        0 <= j < s0.len() && #[trigger] s0[j].0@ == c && cell_set(live@).contains(
                            c,
                        );
                    assert(seq_has_key(s0, c));
                }
            }
        }
    }
}

impl Default for FlowFields {
    /// An empty cache for the default grid size.
    fn default() -> (r: Self)
        ensures
            r.wf(),
            r.side() == GRID_SIZE as int,
            r.entry_count() == 0,
            forall|c: (int, int)| !r.has_field(c),
            r.impassable_set() == Set::<(int, int)>::empty(),
    {
        FlowFields::new(GRID_SIZE)
    }
}

/// Law: after `set_impassable(t)`, building a field that targets the
/// in-bounds cell `t` reports `TargetBlocked`, whatever else the
/// passability set holds.  `before` and `after` are the cache states around
/// the `set_impassable` call, and `r` is what a build over the edited set
/// returns.
pub proof fn lemma_build_after_set_impassable(
    before: FlowFields,
    after: FlowFields,
    t: GridCell,
    r: Result<FieldView, FlowError>,
)
    requires
        crate::grid::in_bounds(after.side(), t@),
        after.side() == before.side(),
        after.impassable_set() == before.impassable_set().insert(t@),
        build_result_spec(after.side(), after.impassable_set(), t@, r),
    ensures
        r == Result::<FieldView, FlowError>::Err(FlowError::TargetBlocked),
{
    assert(after.impassable_set().contains(t@));
}

} // verus!
