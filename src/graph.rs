use crate::handle::{Handle, TypeTag};
use crate::relations::RelationsTable;
use intuicio_data::lifetime::{ValueReadAccess, ValueWriteAccess};
use intuicio_framework_arena::{AnyArena, AnyIndex, ArenaError, Index};
use vstd::prelude::*;

verus! {

#[verifier::external_type_specification]
#[verifier::external_body]
pub struct ExAnyArena(AnyArena);

#[verifier::external_type_specification]
#[verifier::external_body]
pub struct ExArenaError(ArenaError);

#[verifier::external_type_specification]
#[verifier::external_body]
#[verifier::reject_recursive_types(T)]
pub struct ExValueReadAccess<'a, T: 'a + ?Sized>(ValueReadAccess<'a, T>);

#[verifier::external_type_specification]
#[verifier::external_body]
#[verifier::reject_recursive_types(T)]
pub struct ExValueWriteAccess<'a, T: 'a + ?Sized>(ValueWriteAccess<'a, T>);

/// The handles of the values that an arena holds: for each, its index as
/// `Index::to_u64` packs it and the hash of its type.
pub uninterp spec fn arena_handles(a: AnyArena) -> Set<Handle>;

/// Relies on `AnyArena::default` and `AnyArena::with_new_arena_capacity`: an
/// arena that holds nothing yet.
#[verifier::external_body]
fn arena_with_capacity(capacity: usize) -> (r: AnyArena)
    ensures
        arena_handles(r) == Set::<Handle>::empty(),
{
    AnyArena::default().with_new_arena_capacity(capacity)
}

/// Relies on `AnyArena::insert`: the value is stored and its index is live
/// from then on. The handle and tag are read from that index.
#[verifier::external_body]
fn arena_insert<T>(a: &mut AnyArena, value: T) -> (r: (Handle, TypeTag))
    ensures
        arena_handles(*final(a)) == arena_handles(*old(a)).insert(r.0),
        r.0.type_hash == r.1@,
{
    let index = a.insert(value);
    let raw = index.type_hash();
    (Handle { index: index.index().to_u64(), type_hash: raw.hash() }, TypeTag { hash: raw.hash(), raw })
}

/// Relies on `AnyArena::remove`: succeeds exactly when the index is live, and
/// then the index is live no more.
#[verifier::external_body]
fn arena_remove(a: &mut AnyArena, h: Handle, tag: &TypeTag) -> (r: Result<(), ArenaError>)
    requires
        h.type_hash == tag@,
    ensures
        arena_handles(*final(a)) == arena_handles(*old(a)).remove(h),
        r is Ok <==> arena_handles(*old(a)).contains(h),
{
    a.remove(AnyIndex::new(Index::from_u64(h.index), tag.raw()))
}

/// Relies on `AnyArena::contains`: whether the index is live.
#[verifier::external_body]
fn arena_contains(a: &AnyArena, h: Handle, tag: &TypeTag) -> (r: bool)
    requires
        h.type_hash == tag@,
    ensures
        r == arena_handles(*a).contains(h),
{
    a.contains(AnyIndex::new(Index::from_u64(h.index), tag.raw()))
}

/// Relies on `AnyArena::is_raw`, asked about the index's own type: whether
/// the index is live, or an error when no value of that type was ever stored.
#[verifier::external_body]
fn arena_is(a: &AnyArena, h: Handle, tag: &TypeTag) -> (r: Result<bool, ArenaError>)
    requires
        h.type_hash == tag@,
    ensures
        match r {
            Ok(b) => b == arena_handles(*a).contains(h),
            Err(_) => !arena_handles(*a).contains(h),
        },
{
    a.is_raw(AnyIndex::new(Index::from_u64(h.index), tag.raw()), tag.raw())
}

/// Relies on `AnyArena::clear`: every value is dropped.
#[verifier::external_body]
fn arena_clear(a: &mut AnyArena)
    ensures
        arena_handles(*final(a)) == Set::<Handle>::empty(),
{
    a.clear()
}

/// Relies on `AnyArena::indices`: every live index, read as a handle.
#[verifier::external_body]
fn arena_indices(a: &AnyArena) -> (r: Vec<Handle>)
    ensures
        forall|h: Handle| #[trigger] r@.contains(h) <==> arena_handles(*a).contains(h),
{
    a.indices().map(|i| Handle { index: i.index().to_u64(), type_hash: i.type_hash().hash() }).collect()
}

/// Relies on `AnyArena::read`: a shared accessor, which only a live index can
/// give.
#[verifier::external_body]
fn arena_read<'a, T>(a: &'a AnyArena, h: Handle, tag: &TypeTag) -> (r: Result<ValueReadAccess<'a, T>, ArenaError>)
    requires
        h.type_hash == tag@,
    ensures
        r is Ok ==> arena_handles(*a).contains(h),
{
    a.read::<T>(AnyIndex::new(Index::from_u64(h.index), tag.raw()))
}

/// Relies on `AnyArena::write`: an exclusive accessor, which only a live index
/// can give.
#[verifier::external_body]
fn arena_write<'a, T>(a: &'a AnyArena, h: Handle, tag: &TypeTag) -> (r: Result<ValueWriteAccess<'a, T>, ArenaError>)
    requires
        h.type_hash == tag@,
    ensures
        r is Ok ==> arena_handles(*a).contains(h),
{
    a.write::<T>(AnyIndex::new(Index::from_u64(h.index), tag.raw()))
}

/// Relies on `AnyArena::arenas` and `Arena::type_hash`: the type of every
/// arena, so of every stored value.
#[verifier::external_body]
fn arena_types(a: &AnyArena) -> (r: Vec<TypeTag>)
    ensures
        forall|h: Handle| #[trigger] arena_handles(*a).contains(h)
            ==> exists|i: int| 0 <= i < r@.len() && #[trigger] r@[i]@ == h.type_hash,
{
    a.arenas().iter().map(|arena| TypeTag { hash: arena.type_hash().hash(), raw: arena.type_hash() }).collect()
}

/// Tells the arena's errors apart.
#[verifier::external_body]
fn error_of(e: ArenaError) -> (r: GraphError) {
    match e {
        ArenaError::InvalidAreaType { .. } => GraphError::TypeMismatch,
        ArenaError::IndexNotFound { .. } => GraphError::EntityNotFound,
        ArenaError::CannotReadItem { .. } => GraphError::AccessDenied,
        ArenaError::CannotWriteItem { .. } => GraphError::AccessDenied,
        ArenaError::ArenaNotFound { .. } => GraphError::EntityNotFound,
    }
}

/// Why an operation on a stored value failed.
#[derive(Clone, Copy, Debug, PartialEq, Eq, Structural)]
pub enum GraphError {
    /// The handle names no stored value.
    EntityNotFound,
    /// The value is not of the type asked for.
    TypeMismatch,
    /// Another accessor of the value is outstanding.
    AccessDenied,
}

/// The edges of one relation category.
#[derive(Debug)]
pub struct CategoryTable {
    pub category: TypeTag,
    pub table: RelationsTable,
}

/// Whether the tables in `rels` relate `a` to `b` under category `c`.
pub open spec fn rel_in(rels: Seq<CategoryTable>, c: u64, a: Handle, b: Handle) -> bool {
    exists|i: int| 0 <= i < rels.len() && #[trigger] rels[i].category@ == c && rels[i].table.has_edge(a, b)
}

/// No category has two tables, and every table is well formed.
pub open spec fn tables_wf(rels: Seq<CategoryTable>) -> bool {
    &&& forall|i: int, j: int|
        0 <= i < rels.len() && 0 <= j < rels.len() && #[trigger] rels[i].category@ == #[trigger] rels[j].category@
            ==> i == j
    &&& forall|i: int| 0 <= i < rels.len() ==> (#[trigger] rels[i]).table.wf()
}

proof fn lemma_rel_at(rels: Seq<CategoryTable>, p: int, c: u64, a: Handle, b: Handle)
    requires
        tables_wf(rels),
        0 <= p < rels.len(),
        rels[p].category@ == c,
    ensures
        rel_in(rels, c, a, b) <==> rels[p].table.has_edge(a, b),
{
    if rel_in(rels, c, a, b) {
        let i = choose|i: int| 0 <= i < rels.len() && #[trigger] rels[i].category@ == c && rels[i].table.has_edge(a, b);
        assert(rels[i].category@ == rels[p].category@);
    }
}

/// After table `p` of `before` changed into that of `after`, the other
/// categories relate what they did.
proof fn lemma_rel_other(before: Seq<CategoryTable>, after: Seq<CategoryTable>, p: int, c: u64, a: Handle, b: Handle)
    requires
        tables_wf(before),
        tables_wf(after),
        before.len() == after.len(),
        0 <= p < before.len(),
        before[p].category@ != c,
        forall|i: int| 0 <= i < before.len() && i != p ==> #[trigger] after[i] == before[i],
        after[p].category@ == before[p].category@,
    ensures
        rel_in(after, c, a, b) <==> rel_in(before, c, a, b),
{
    if rel_in(after, c, a, b) {
        let i = choose|i: int| 0 <= i < after.len() && #[trigger] after[i].category@ == c && after[i].table.has_edge(a, b);
        assert(before[i] == after[i]);
    }
    if rel_in(before, c, a, b) {
        let i = choose|i: int| 0 <= i < before.len() && #[trigger] before[i].category@ == c && before[i].table.has_edge(a, b);
        assert(before[i] == after[i]);
    }
}

/// A store of values of any type, with directed edges between them in
/// relation categories.
///
/// The values live in an arena; the graph keeps one relation table per
/// category, created on its first use, and the tag of every type it has
/// stored a value of.
pub struct Graph {
    nodes: AnyArena,
    types: Vec<TypeTag>,
    relations: Vec<CategoryTable>,
}

impl Graph {
    /// A graph whose tables changed without gaining edges stays well formed.
    proof fn lemma_wf_frame(g1: Graph, g2: Graph)
        requires
            g1.wf(),
            g2.nodes() == g1.nodes(),
            g2.types == g1.types,
            tables_wf(g2.relations@),
            forall|c: u64, a: Handle, b: Handle| #[trigger] g2.related(c, a, b)
                ==> g1.related(c, a, b) || (g2.nodes().contains(a) && g2.nodes().contains(b)),
        ensures
            g2.wf(),
    {
        assert forall|h: Handle| #[trigger] g2.nodes().contains(h)
            implies exists|i: int| 0 <= i < g2.types@.len() && #[trigger] g2.types@[i]@ == h.type_hash by {
            assert(g1.nodes().contains(h));
            let i = choose|i: int| 0 <= i < g1.types@.len() && #[trigger] g1.types@[i]@ == h.type_hash;
            assert(g2.types@[i] == g1.types@[i]);
        }
        assert forall|c: u64, a: Handle, b: Handle| #[trigger] g2.related(c, a, b)
            implies g2.nodes().contains(a) && g2.nodes().contains(b) by {
            if g1.related(c, a, b) {
            }
        }
    }

    /// The handles of the stored values.
    pub closed spec fn nodes(&self) -> Set<Handle> {
        arena_handles(self.nodes)
    }

    /// Whether the graph relates `a` to `b` under the category with hash `c`.
    pub closed spec fn related(&self, c: u64, a: Handle, b: Handle) -> bool {
        rel_in(self.relations@, c, a, b)
    }

    /// Every edge of the graph, as (category, source, target).
    pub open spec fn edges(&self) -> Set<(u64, Handle, Handle)> {
        Set::new(|e: (u64, Handle, Handle)| self.related(e.0, e.1, e.2))
    }

    /// Whether `b` is one step away from `a`: under category `c`, or under any
    /// category where `c` is `None`.
    pub open spec fn step(&self, c: Option<u64>, a: Handle, b: Handle) -> bool {
        match c {
            Some(c) => self.related(c, a, b),
            None => exists|k: u64| #[trigger] self.related(k, a, b),
        }
    }

    /// The targets of the edges from `a` under category `c`, in the order
    /// they are kept.
    pub closed spec fn out_seq(&self, c: u64, a: Handle) -> Seq<Handle> {
        if exists|i: int| 0 <= i < self.relations@.len() && #[trigger] self.relations@[i].category@ == c {
            let i = choose|i: int| 0 <= i < self.relations@.len() && #[trigger] self.relations@[i].category@ == c;
            self.relations@[i].table.out_seq(a)
        } else {
            Seq::empty()
        }
    }

    /// The targets of the edges from `a` in the first `n` tables, table by
    /// table.
    pub closed spec fn out_any_upto(&self, a: Handle, n: int) -> Seq<Handle>
        decreases n,
    {
        if n <= 0 {
            Seq::empty()
        } else {
            self.out_any_upto(a, n - 1) + self.relations@[n - 1].table.out_seq(a)
        }
    }

    /// The handles one step away from `a`, in the order the graph lists
    /// them: under category `c`, or under every category in turn where `c` is
    /// `None`.
    pub closed spec fn nbr_seq(&self, c: Option<u64>, a: Handle) -> Seq<Handle> {
        match c {
            Some(c) => self.out_seq(c, a),
            None => self.out_any_upto(a, self.relations@.len() as int),
        }
    }

    /// Breadth-first search from the state where `out` was found and its
    /// first `i` handles were expanded, for at most `fuel` more expansions.
    pub open spec fn bfs(&self, c: Option<u64>, out: Seq<Handle>, i: nat, fuel: nat) -> Seq<Handle>
        decreases fuel,
    {
        if fuel == 0 || i >= out.len() {
            out
        } else {
            self.bfs(c, append_new(out, self.nbr_seq(c, out[i as int])), i + 1, (fuel - 1) as nat)
        }
    }

    /// Whether that search expands every handle it finds within `fuel`
    /// expansions.
    pub open spec fn bfs_ends(&self, c: Option<u64>, out: Seq<Handle>, i: nat, fuel: nat) -> bool
        decreases fuel,
    {
        if i >= out.len() {
            true
        } else if fuel == 0 {
            false
        } else {
            self.bfs_ends(c, append_new(out, self.nbr_seq(c, out[i as int])), i + 1, (fuel - 1) as nat)
        }
    }

    /// The breadth-first order of the handles reachable from `start`.
    pub open spec fn traversal(&self, c: Option<u64>, start: Handle) -> Seq<Handle> {
        let n = choose|n: nat| self.bfs_ends(c, seq![start], 0, n);
        self.bfs(c, seq![start], 0, n)
    }

    /// Whether `w` is a walk: at least one handle, each a step from the one
    /// before.
    pub open spec fn is_walk(&self, c: Option<u64>, w: Seq<Handle>) -> bool {
        w.len() >= 1 && forall|i: int| 0 <= i < w.len() - 1 ==> #[trigger] self.step(c, w[i], w[i + 1])
    }

    /// Whether some walk leads from `a` to `b`.
    pub open spec fn reachable(&self, c: Option<u64>, a: Handle, b: Handle) -> bool {
        exists|w: Seq<Handle>| #[trigger] self.is_walk(c, w) && w[0] == a && w.last() == b
    }

    /// Whether `w` is a walk whose last handle steps back to its first.
    pub open spec fn is_cycle(&self, c: Option<u64>, w: Seq<Handle>) -> bool {
        self.is_walk(c, w) && self.step(c, w.last(), w[0])
    }

    /// The tables are well formed, the type of every stored value is known,
    /// and every edge joins two stored values.
    pub closed spec fn wf(&self) -> bool {
        &&& tables_wf(self.relations@)
        &&& forall|h: Handle| #[trigger] self.nodes().contains(h)
            ==> exists|i: int| 0 <= i < self.types@.len() && #[trigger] self.types@[i]@ == h.type_hash
        &&& forall|c: u64, a: Handle, b: Handle| #[trigger] self.related(c, a, b)
            ==> self.nodes().contains(a) && self.nodes().contains(b)
    }

    /// An empty graph whose arena makes room for `capacity` values of each
    /// type at first.
    pub fn with_capacity(capacity: usize) -> (r: Graph)
        ensures
            r.wf(),
            r.nodes() == Set::<Handle>::empty(),
            forall|c: u64, a: Handle, b: Handle| !#[trigger] r.related(c, a, b),
    {
        Graph { nodes: arena_with_capacity(capacity), types: Vec::new(), relations: Vec::new() }
    }

    /// An empty graph.
    pub fn new() -> (r: Graph)
        ensures
            r.wf(),
            r.nodes() == Set::<Handle>::empty(),
            forall|c: u64, a: Handle, b: Handle| !#[trigger] r.related(c, a, b),
    {
        Graph::with_capacity(0)
    }

    /// An empty graph whose arena makes room for `capacity` values of each
    /// type at first. What `self` held is dropped.
    pub fn with_new_arena_capacity(self, capacity: usize) -> (r: Graph)
        ensures
            r.wf(),
            r.nodes() == Set::<Handle>::empty(),
            forall|c: u64, a: Handle, b: Handle| !#[trigger] r.related(c, a, b),
    {
        Graph::with_capacity(capacity)
    }

    /// A graph over the values of `nodes`, with no relations.
    pub fn from_arena(nodes: AnyArena) -> (r: Graph)
        ensures
            r.wf(),
            r.nodes() == arena_handles(nodes),
            forall|c: u64, a: Handle, b: Handle| !#[trigger] r.related(c, a, b),
    {
        let types = arena_types(&nodes);
        let ghost t0 = types@;
        let ghost n0 = nodes;
        let r = Graph { nodes, types, relations: Vec::new() };
        assert(r.types@ == t0 && r.nodes == n0);
        assert forall|h: Handle| #[trigger] r.nodes().contains(h)
            implies exists|i: int| 0 <= i < r.types@.len() && #[trigger] r.types@[i]@ == h.type_hash by {
            assert(arena_handles(n0).contains(h));
            let i = choose|i: int| 0 <= i < t0.len() && #[trigger] t0[i]@ == h.type_hash;
            assert(r.types@[i]@ == h.type_hash);
        }
        assert forall|c: u64, a: Handle, b: Handle| !#[trigger] r.related(c, a, b) by {
            assert(r.relations@.len() == 0);
        }
        r
    }

    /// The arena that holds the values.
    pub fn arena(&self) -> (r: &AnyArena)
        ensures
            arena_handles(*r) == self.nodes(),
    {
        &self.nodes
    }

    /// The tag of the type of the value at `index`. Known for every stored
    /// value.
    pub fn type_tag_of(&self, index: Handle) -> (r: Option<TypeTag>)
        requires
            self.wf(),
        ensures
            r matches Some(t) ==> t@ == index.type_hash,
            self.nodes().contains(index) ==> r is Some,
    {
        self.type_tag(index.type_hash)
    }

    /// The tag of the type with hash `t`, if the graph has stored a value of
    /// that type.
    fn type_tag(&self, t: u64) -> (r: Option<TypeTag>)
        ensures
            match r {
                Some(tag) => tag@ == t && exists|i: int| 0 <= i < self.types@.len() && #[trigger] self.types@[i]@ == t,
                None => forall|i: int| 0 <= i < self.types@.len() ==> (#[trigger] self.types@[i])@ != t,
            },
    {
        let mut i: usize = 0;
        while i < self.types.len()
            invariant
                i <= self.types@.len(),
                forall|k: int| 0 <= k < i ==> (#[trigger] self.types@[k])@ != t,
            decreases self.types@.len() - i,
        {
            if self.types[i].hash() == t {
                assert(self.types@[i as int]@ == t);
                return Some(self.types[i]);
            }
            i = i + 1;
        }
        None
    }

    /// Stores `value` and returns its handle.
    pub fn insert<T>(&mut self, value: T) -> (r: Handle)
        requires
            old(self).wf(),
        ensures
            final(self).wf(),
            final(self).nodes() == old(self).nodes().insert(r),
            forall|c: u64, a: Handle, b: Handle| #[trigger] final(self).related(c, a, b) == old(self).related(c, a, b),
    {
        let (h, tag) = arena_insert(&mut self.nodes, value);
        let known = self.type_tag(tag.hash());
        if known.is_none() {
            self.types.push(tag);
            assert(self.types@[self.types@.len() - 1]@ == h.type_hash);
        }
        assert forall|x: Handle| #[trigger] self.nodes().contains(x)
            implies exists|i: int| 0 <= i < self.types@.len() && #[trigger] self.types@[i]@ == x.type_hash by {
            if x != h {
                assert(old(self).nodes().contains(x));
                let i = choose|i: int| 0 <= i < old(self).types@.len() && #[trigger] old(self).types@[i]@ == x.type_hash;
                assert(self.types@[i] == old(self).types@[i]);
            } else if exists|i: int| 0 <= i < old(self).types@.len() && #[trigger] old(self).types@[i]@ == x.type_hash {
                let i = choose|i: int| 0 <= i < old(self).types@.len() && #[trigger] old(self).types@[i]@ == x.type_hash;
                assert(self.types@[i] == old(self).types@[i]);
            }
        }
        assert forall|c: u64, a: Handle, b: Handle| #[trigger] self.related(c, a, b)
            implies self.nodes().contains(a) && self.nodes().contains(b) by {
            assert(old(self).related(c, a, b));
        }
        h
    }

    /// Whether `index` names a stored value.
    pub fn contains(&self, index: Handle) -> (r: bool)
        requires
            self.wf(),
        ensures
            r == self.nodes().contains(index),
    {
        match self.type_tag(index.type_hash) {
            Some(tag) => arena_contains(&self.nodes, index, &tag),
            None => false,
        }
    }

    /// Whether `index` names a stored value of the type `ty`.
    pub fn is(&self, index: Handle, ty: TypeTag) -> (r: bool)
        requires
            self.wf(),
        ensures
            r == (index.type_hash == ty@ && self.nodes().contains(index)),
    {
        if index.type_hash != ty.hash() {
            return false;
        }
        match arena_is(&self.nodes, index, &ty) {
            Ok(b) => b,
            Err(_) => false,
        }
    }

    /// Shared access to the value at `index`, as a `T`.
    ///
    /// Fails when `index` names nothing, when the value is not a `T`, or when
    /// something is writing to it.
    pub fn read<T>(&self, index: Handle) -> (r: Result<ValueReadAccess<'_, T>, GraphError>)
        requires
            self.wf(),
        ensures
            r is Ok ==> self.nodes().contains(index),
            !self.nodes().contains(index) ==> r is Err,
    {
        match self.type_tag(index.type_hash) {
            Some(tag) => match arena_read::<T>(&self.nodes, index, &tag) {
                Ok(access) => Ok(access),
                Err(e) => Err(error_of(e)),
            },
            None => Err(GraphError::EntityNotFound),
        }
    }

    /// Exclusive access to the value at `index`, as a `T`.
    ///
    /// Fails when `index` names nothing, when the value is not a `T`, or when
    /// anything else is reading or writing it.
    pub fn write<T>(&self, index: Handle) -> (r: Result<ValueWriteAccess<'_, T>, GraphError>)
        requires
            self.wf(),
        ensures
            r is Ok ==> self.nodes().contains(index),
            !self.nodes().contains(index) ==> r is Err,
    {
        match self.type_tag(index.type_hash) {
            Some(tag) => match arena_write::<T>(&self.nodes, index, &tag) {
                Ok(access) => Ok(access),
                Err(e) => Err(error_of(e)),
            },
            None => Err(GraphError::EntityNotFound),
        }
    }

    /// Shared access to every stored value of type `T` that nothing is
    /// writing to, with its handle.
    pub fn iter<T>(&self) -> (r: Vec<(Handle, ValueReadAccess<'_, T>)>)
        requires
            self.wf(),
        ensures
            forall|k: int| 0 <= k < r@.len() ==> self.nodes().contains((#[trigger] r@[k]).0),
    {
        let ty = TypeTag::of::<T>();
        let all = self.indices();
        let mut r: Vec<(Handle, ValueReadAccess<'_, T>)> = Vec::new();
        let mut i: usize = 0;
        while i < all.len()
            invariant
                self.wf(),
                i <= all@.len(),
                forall|k: int| 0 <= k < r@.len() ==> self.nodes().contains((#[trigger] r@[k]).0),
            decreases all@.len() - i,
        {
            let h = all[i];
            if self.is(h, ty) {
                if let Ok(access) = self.read::<T>(h) {
                    r.push((h, access));
                }
            }
            i = i + 1;
        }
        r
    }

    /// Exclusive access to every stored value of type `T` that nothing else
    /// is reading or writing, with its handle.
    pub fn iter_mut<T>(&self) -> (r: Vec<(Handle, ValueWriteAccess<'_, T>)>)
        requires
            self.wf(),
        ensures
            forall|k: int| 0 <= k < r@.len() ==> self.nodes().contains((#[trigger] r@[k]).0),
    {
        let ty = TypeTag::of::<T>();
        let all = self.indices();
        let mut r: Vec<(Handle, ValueWriteAccess<'_, T>)> = Vec::new();
        let mut i: usize = 0;
        while i < all.len()
            invariant
                self.wf(),
                i <= all@.len(),
                forall|k: int| 0 <= k < r@.len() ==> self.nodes().contains((#[trigger] r@[k]).0),
            decreases all@.len() - i,
        {
            let h = all[i];
            if self.is(h, ty) {
                if let Ok(access) = self.write::<T>(h) {
                    r.push((h, access));
                }
            }
            i = i + 1;
        }
        r
    }

    /// The handles of all stored values.
    pub fn indices(&self) -> (r: Vec<Handle>)
        ensures
            forall|h: Handle| #[trigger] r@.contains(h) <==> self.nodes().contains(h),
    {
        arena_indices(&self.nodes)
    }

    /// The position of the table of `category`, if it has one.
    fn table_position(&self, category: TypeTag) -> (r: Option<usize>)
        requires
            self.wf(),
        ensures
            match r {
                Some(p) => p < self.relations@.len() && self.relations@[p as int].category@ == category@,
                None => {
                    &&& forall|k: int| 0 <= k < self.relations@.len() ==> (#[trigger] self.relations@[k]).category@ != category@
                    &&& forall|c: u64, a: Handle, b: Handle| c == category@ ==> !#[trigger] self.related(c, a, b)
                },
            },
    {
        let mut i: usize = 0;
        while i < self.relations.len()
            invariant
                i <= self.relations@.len(),
                forall|k: int| 0 <= k < i ==> (#[trigger] self.relations@[k]).category@ != category@,
            decreases self.relations@.len() - i,
        {
            if self.relations[i].category == category {
                return Some(i);
            }
            i = i + 1;
        }
        assert forall|c: u64, a: Handle, b: Handle| c == category@ implies !#[trigger] self.related(c, a, b) by {
            if self.related(c, a, b) {
                let k = choose|k: int| 0 <= k < self.relations@.len() && #[trigger] self.relations@[k].category@ == c
                    && self.relations@[k].table.has_edge(a, b);
            }
        }
        None
    }

    /// The position of the table of `category`, created empty if it had none.
    fn ensure_table(&mut self, category: TypeTag) -> (p: usize)
        requires
            old(self).wf(),
        ensures
            final(self).wf(),
            final(self).nodes() == old(self).nodes(),
            final(self).types == old(self).types,
            p < final(self).relations@.len(),
            final(self).relations@[p as int].category@ == category@,
            forall|c: u64, a: Handle, b: Handle| #[trigger] final(self).related(c, a, b) == old(self).related(c, a, b),
    {
        match self.table_position(category) {
            Some(p) => p,
            None => {
                let ghost before = self.relations@;
                self.relations.push(CategoryTable { category, table: RelationsTable::new() });
                let ghost after = self.relations@;
                assert forall|c: u64, a: Handle, b: Handle| #[trigger] rel_in(after, c, a, b) == rel_in(before, c, a, b) by {
                    if rel_in(after, c, a, b) {
                        let k = choose|k: int| 0 <= k < after.len() && #[trigger] after[k].category@ == c && after[k].table.has_edge(a, b);
                        if k < before.len() {
                            assert(before[k] == after[k]);
                        }
                    }
                    if rel_in(before, c, a, b) {
                        let k = choose|k: int| 0 <= k < before.len() && #[trigger] before[k].category@ == c && before[k].table.has_edge(a, b);
                        assert(before[k] == after[k]);
                    }
                }
                assert forall|i: int, j: int|
                    0 <= i < after.len() && 0 <= j < after.len() && #[trigger] after[i].category@ == #[trigger] after[j].category@
                        implies i == j by {
                    if i < before.len() && j == before.len() {
                        assert(before[i].category@ != category@);
                    }
                }
                assert forall|i: int| 0 <= i < after.len() implies (#[trigger] after[i]).table.wf() by {
                    if i < before.len() {
                        assert(before[i] == after[i]);
                    }
                }
                assert forall|c: u64, a: Handle, b: Handle| #[trigger] self.related(c, a, b) implies old(self).related(c, a, b) by {
                    assert(rel_in(after, c, a, b));
                }
                proof {
                    Graph::lemma_wf_frame(*old(self), *self);
                }
                self.relations.len() - 1
            },
        }
    }

    /// Relates `from` to `to` under `category`. Relating them again changes
    /// nothing.
    pub fn relate(&mut self, category: TypeTag, from: Handle, to: Handle)
        requires
            old(self).wf(),
            old(self).nodes().contains(from),
            old(self).nodes().contains(to),
        ensures
            final(self).wf(),
            final(self).nodes() == old(self).nodes(),
            forall|c: u64, a: Handle, b: Handle| #[trigger] final(self).related(c, a, b)
                <==> (old(self).related(c, a, b) || (c == category@ && a == from && b == to)),
            applies(*old(self), *final(self), (true, category@, from, to)),
    {
        let p = self.ensure_table(category);
        let ghost mid = *self;
        let ghost before = self.relations@;
        self.relations[p].table.insert(from, to);
        let ghost after = self.relations@;
        proof {
            assert(after[p as int].category == before[p as int].category);
            assert(forall|i: int| 0 <= i < after.len() && i != p ==> #[trigger] after[i] == before[i]);
            assert(tables_wf(after));
            assert forall|c: u64, a: Handle, b: Handle| #[trigger] rel_in(after, c, a, b)
                <==> (rel_in(before, c, a, b) || (c == category@ && a == from && b == to)) by {
                if c == category@ {
                    lemma_rel_at(before, p as int, c, a, b);
                    lemma_rel_at(after, p as int, c, a, b);
                } else {
                    lemma_rel_other(before, after, p as int, c, a, b);
                }
            }
            assert forall|c: u64, a: Handle, b: Handle| #[trigger] self.related(c, a, b)
                implies mid.related(c, a, b) || (self.nodes().contains(a) && self.nodes().contains(b)) by {
                if !(a == from && b == to) {
                    assert(rel_in(before, c, a, b));
                }
            }
            Graph::lemma_wf_frame(mid, *self);
            assert forall|c: u64, a: Handle, b: Handle| #[trigger] self.related(c, a, b) <==> (old(self).related(c, a, b) || (c == category@ && a == from && b == to)) by {
                assert(mid.related(c, a, b) == old(self).related(c, a, b));
            }
        }
    }

    /// Relates `from` to `to` under `output` and `to` to `from` under
    /// `input`, so that either direction is one lookup.
    pub fn relate_pair(&mut self, input: TypeTag, output: TypeTag, from: Handle, to: Handle)
        requires
            old(self).wf(),
            old(self).nodes().contains(from),
            old(self).nodes().contains(to),
        ensures
            final(self).wf(),
            final(self).nodes() == old(self).nodes(),
            forall|c: u64, a: Handle, b: Handle| #[trigger] final(self).related(c, a, b)
                <==> (old(self).related(c, a, b) || (c == output@ && a == from && b == to) || (c == input@ && a == to
                    && b == from)),
    {
        self.relate(output, from, to);
        self.relate(input, to, from);
    }

    /// Removes the edge from `from` to `to` under `category`, if it is there.
    pub fn unrelate(&mut self, category: TypeTag, from: Handle, to: Handle)
        requires
            old(self).wf(),
        ensures
            final(self).wf(),
            final(self).nodes() == old(self).nodes(),
            forall|c: u64, a: Handle, b: Handle| #[trigger] final(self).related(c, a, b)
                <==> (old(self).related(c, a, b) && !(c == category@ && a == from && b == to)),
            applies(*old(self), *final(self), (false, category@, from, to)),
    {
        let p = self.ensure_table(category);
        let ghost mid = *self;
        let ghost before = self.relations@;
        self.relations[p].table.remove(from, to);
        let ghost after = self.relations@;
        proof {
            assert(after[p as int].category == before[p as int].category);
            assert(forall|i: int| 0 <= i < after.len() && i != p ==> #[trigger] after[i] == before[i]);
            assert(tables_wf(after));
            assert forall|c: u64, a: Handle, b: Handle| #[trigger] rel_in(after, c, a, b)
                <==> (rel_in(before, c, a, b) && !(c == category@ && a == from && b == to)) by {
                if c == category@ {
                    lemma_rel_at(before, p as int, c, a, b);
                    lemma_rel_at(after, p as int, c, a, b);
                } else {
                    lemma_rel_other(before, after, p as int, c, a, b);
                }
            }
            assert forall|c: u64, a: Handle, b: Handle| #[trigger] self.related(c, a, b)
                implies mid.related(c, a, b) || (self.nodes().contains(a) && self.nodes().contains(b)) by {
                if !(a == from && b == to) {
                    assert(rel_in(before, c, a, b));
                }
            }
            Graph::lemma_wf_frame(mid, *self);
            assert forall|c: u64, a: Handle, b: Handle| #[trigger] self.related(c, a, b) <==> (old(self).related(c, a, b) && !(c == category@ && a == from && b == to)) by {
                assert(mid.related(c, a, b) == old(self).related(c, a, b));
            }
        }
    }

    /// Removes the edge from `from` to `to` under `output` and the one from
    /// `to` to `from` under `input`.
    pub fn unrelate_pair(&mut self, input: TypeTag, output: TypeTag, from: Handle, to: Handle)
        requires
            old(self).wf(),
        ensures
            final(self).wf(),
            final(self).nodes() == old(self).nodes(),
            forall|c: u64, a: Handle, b: Handle| #[trigger] final(self).related(c, a, b)
                <==> (old(self).related(c, a, b) && !(c == output@ && a == from && b == to) && !(c == input@ && a == to
                    && b == from)),
    {
        self.unrelate(output, from, to);
        self.unrelate(input, to, from);
    }

    /// Removes every edge that starts at `from` under `category`.
    pub fn unrelate_all(&mut self, category: TypeTag, from: Handle)
        requires
            old(self).wf(),
        ensures
            final(self).wf(),
            final(self).nodes() == old(self).nodes(),
            forall|c: u64, a: Handle, b: Handle| #[trigger] final(self).related(c, a, b)
                <==> (old(self).related(c, a, b) && !(c == category@ && a == from)),
    {
        let p = self.ensure_table(category);
        let ghost mid = *self;
        let ghost before = self.relations@;
        self.relations[p].table.remove_all(from);
        let ghost after = self.relations@;
        proof {
            assert(after[p as int].category == before[p as int].category);
            assert(forall|i: int| 0 <= i < after.len() && i != p ==> #[trigger] after[i] == before[i]);
            assert(tables_wf(after));
            assert forall|c: u64, a: Handle, b: Handle| #[trigger] rel_in(after, c, a, b)
                <==> (rel_in(before, c, a, b) && !(c == category@ && a == from)) by {
                if c == category@ {
                    lemma_rel_at(before, p as int, c, a, b);
                    lemma_rel_at(after, p as int, c, a, b);
                } else {
                    lemma_rel_other(before, after, p as int, c, a, b);
                }
            }
            assert forall|c: u64, a: Handle, b: Handle| #[trigger] self.related(c, a, b)
                implies mid.related(c, a, b) || (self.nodes().contains(a) && self.nodes().contains(b)) by {
                assert(rel_in(before, c, a, b));
            }
            Graph::lemma_wf_frame(mid, *self);
            assert forall|c: u64, a: Handle, b: Handle| #[trigger] self.related(c, a, b) <==> (old(self).related(c, a, b) && !(c == category@ && a == from)) by {
                assert(mid.related(c, a, b) == old(self).related(c, a, b));
            }
        }
    }

    /// Whether `from` is related to `to` under `category`.
    pub fn are_related(&self, category: TypeTag, from: Handle, to: Handle) -> (r: bool)
        requires
            self.wf(),
        ensures
            r == self.related(category@, from, to),
    {
        match self.table_position(category) {
            Some(p) => {
                proof {
                    lemma_rel_at(self.relations@, p as int, category@, from, to);
                }
                self.relations[p].table.contains(from, to)
            },
            None => false,
        }
    }

    /// Removes the value at `index` and every edge that starts or ends at it,
    /// in every category.
    ///
    /// Fails with `EntityNotFound` when `index` names no stored value.
    pub fn remove(&mut self, index: Handle) -> (r: Result<(), GraphError>)
        requires
            old(self).wf(),
        ensures
            final(self).wf(),
            r is Ok <==> old(self).nodes().contains(index),
            r is Err ==> r == Err::<(), GraphError>(GraphError::EntityNotFound),
            final(self).nodes() == old(self).nodes().remove(index),
            forall|c: u64, a: Handle, b: Handle| #[trigger] final(self).related(c, a, b)
                <==> (old(self).related(c, a, b) && a != index && b != index),
    {
        let tag = match self.type_tag(index.type_hash) {
            Some(tag) => tag,
            None => {
                assert(!self.nodes().contains(index));
                assert(self.nodes() =~= self.nodes().remove(index));
                return Err(GraphError::EntityNotFound);
            },
        };
        match arena_remove(&mut self.nodes, index, &tag) {
            Ok(()) => {},
            Err(_) => {
                assert(self.nodes() =~= old(self).nodes().remove(index));
                assert(self.nodes() =~= old(self).nodes());
                proof {
                    Graph::lemma_wf_frame(*old(self), *self);
                }
                return Err(GraphError::EntityNotFound);
            },
        }
        let ghost start = self.relations@;
        let mut i: usize = 0;
        while i < self.relations.len()
            invariant
                i <= self.relations@.len(),
                self.relations@.len() == start.len(),
                self.nodes() == old(self).nodes().remove(index),
                self.types == old(self).types,
                tables_wf(start),
                start == old(self).relations@,
                forall|k: int| 0 <= k < start.len() ==> (#[trigger] self.relations@[k]).category == start[k].category,
                forall|k: int| 0 <= k < start.len() ==> (#[trigger] self.relations@[k]).table.wf(),
                forall|k: int| i <= k < start.len() ==> #[trigger] self.relations@[k] == start[k],
                forall|k: int, a: Handle, b: Handle| 0 <= k < i ==> (#[trigger] self.relations@[k].table.has_edge(a, b)
                    <==> (start[k].table.has_edge(a, b) && a != index && b != index)),
            decreases start.len() - i,
        {
            let ghost prev = self.relations@;
            self.relations[i].table.remove_all(index);
            self.relations[i].table.remove_all_incoming(index);
            assert(self.relations@[i as int].category == prev[i as int].category);
            assert(forall|k: int| 0 <= k < start.len() && k != i ==> #[trigger] self.relations@[k] == prev[k]);
            i = i + 1;
        }
        proof {
            let rels = self.relations@;
            assert forall|x: int, y: int|
                0 <= x < rels.len() && 0 <= y < rels.len() && #[trigger] rels[x].category@ == #[trigger] rels[y].category@
                    implies x == y by {
                assert(start[x].category@ == start[y].category@);
            }
            assert(tables_wf(rels));
            assert forall|c: u64, a: Handle, b: Handle| #[trigger] self.related(c, a, b)
                <==> (old(self).related(c, a, b) && a != index && b != index) by {
                if self.related(c, a, b) {
                    let k = choose|k: int| 0 <= k < rels.len() && #[trigger] rels[k].category@ == c && rels[k].table.has_edge(a, b);
                    assert(start[k].category@ == c);
                }
                if old(self).related(c, a, b) && a != index && b != index {
                    let k = choose|k: int| 0 <= k < start.len() && #[trigger] start[k].category@ == c && start[k].table.has_edge(a, b);
                    assert(rels[k].category@ == c);
                    assert(rels[k].table.has_edge(a, b));
                }
            }
            assert forall|h: Handle| #[trigger] self.nodes().contains(h)
                implies exists|k: int| 0 <= k < self.types@.len() && #[trigger] self.types@[k]@ == h.type_hash by {
                assert(old(self).nodes().contains(h));
                let k = choose|k: int| 0 <= k < old(self).types@.len() && #[trigger] old(self).types@[k]@ == h.type_hash;
                assert(self.types@[k] == old(self).types@[k]);
            }
            assert forall|c: u64, a: Handle, b: Handle| #[trigger] self.related(c, a, b)
                implies self.nodes().contains(a) && self.nodes().contains(b) by {
                assert(old(self).related(c, a, b));
            }
        }
        Ok(())
    }

    /// The targets of the edges that start at `from` under `category`, each
    /// once.
    pub fn relations_outgoing(&self, from: Handle, category: TypeTag) -> (r: Vec<Handle>)
        requires
            self.wf(),
        ensures
            r@.no_duplicates(),
            r@ == self.out_seq(category@, from),
            forall|b: Handle| #[trigger] r@.contains(b) <==> self.related(category@, from, b),
    {
        match self.table_position(category) {
            Some(p) => {
                proof {
                    let i = choose|i: int| 0 <= i < self.relations@.len() && #[trigger] self.relations@[i].category@ == category@;
                    assert(self.relations@[i].category@ == self.relations@[p as int].category@);
                    assert forall|b: Handle| #[trigger] self.related(category@, from, b) == self.relations@[p as int].table.has_edge(from, b) by {
                        lemma_rel_at(self.relations@, p as int, category@, from, b);
                    }
                }
                self.relations[p].table.outgoing(from)
            },
            None => {
                let r: Vec<Handle> = Vec::new();
                assert(r@ =~= Seq::<Handle>::empty());
                r
            },
        }
    }

    /// The sources of the edges that end at `to` under `category`, each once.
    pub fn relations_incomming(&self, to: Handle, category: TypeTag) -> (r: Vec<Handle>)
        requires
            self.wf(),
        ensures
            r@.no_duplicates(),
            forall|a: Handle| #[trigger] r@.contains(a) <==> self.related(category@, a, to),
    {
        match self.table_position(category) {
            Some(p) => {
                proof {
                    assert forall|a: Handle| #[trigger] self.related(category@, a, to) == self.relations@[p as int].table.has_edge(a, to) by {
                        lemma_rel_at(self.relations@, p as int, category@, a, to);
                    }
                }
                self.relations[p].table.incoming(to)
            },
            None => {
                let r: Vec<Handle> = Vec::new();
                assert(r@ =~= Seq::<Handle>::empty());
                r
            },
        }
    }

    /// The targets of the edges that start at `from`, under any category. A
    /// target related under several categories comes once for each.
    pub fn relations_outgoing_any(&self, from: Handle) -> (r: Vec<Handle>)
        requires
            self.wf(),
        ensures
            r@ == self.nbr_seq(None, from),
            forall|b: Handle| #[trigger] r@.contains(b) <==> self.step(None, from, b),
    {
        let mut r: Vec<Handle> = Vec::new();
        let mut i: usize = 0;
        while i < self.relations.len()
            invariant
                self.wf(),
                i <= self.relations@.len(),
                r@ == self.out_any_upto(from, i as int),
                forall|b: Handle| #[trigger] r@.contains(b) <==> exists|k: int|
                    0 <= k < i && #[trigger] self.relations@[k].table.has_edge(from, b),
            decreases self.relations@.len() - i,
        {
            let mut more = self.relations[i].table.outgoing(from);
            let ghost r0 = r@;
            let ghost more0 = more@;
            r.append(&mut more);
            proof {
                assert(r@ =~= r0 + more0);
                assert(r@ == self.out_any_upto(from, i + 1));
                assert forall|b: Handle| #[trigger] r@.contains(b) <==> exists|k: int|
                    0 <= k < i + 1 && #[trigger] self.relations@[k].table.has_edge(from, b) by {
                    assert(r@ =~= r0 + more0);
                    if r@.contains(b) {
                        let m = choose|m: int| 0 <= m < r@.len() && r@[m] == b;
                        if m < r0.len() {
                            assert(r0[m] == b);
                            assert(r0.contains(b));
                            let k = choose|k: int| 0 <= k < i && #[trigger] self.relations@[k].table.has_edge(from, b);
                            assert(self.relations@[k].table.has_edge(from, b));
                        } else {
                            assert(more0[m - r0.len()] == b);
                            assert(more0.contains(b));
                            assert(self.relations@[i as int].table.has_edge(from, b));
                        }
                    }
                    if exists|k: int| 0 <= k < i + 1 && #[trigger] self.relations@[k].table.has_edge(from, b) {
                        let k = choose|k: int| 0 <= k < i + 1 && #[trigger] self.relations@[k].table.has_edge(from, b);
                        if k < i {
                            assert(r0.contains(b));
                            let m = choose|m: int| 0 <= m < r0.len() && r0[m] == b;
                            assert(r@[m] == b);
                        } else {
                            assert(more0.contains(b));
                            let m = choose|m: int| 0 <= m < more0.len() && more0[m] == b;
                            assert(r@[r0.len() + m] == b);
                        }
                    }
                }
            }
            i = i + 1;
        }
        proof {
            assert forall|b: Handle| #[trigger] r@.contains(b) <==> self.step(None, from, b) by {
                if r@.contains(b) {
                    let k = choose|k: int| 0 <= k < self.relations@.len() && #[trigger] self.relations@[k].table.has_edge(from, b);
                    assert(self.related(self.relations@[k].category@, from, b));
                }
                if self.step(None, from, b) {
                    let c = choose|c: u64| #[trigger] self.related(c, from, b);
                    let k = choose|k: int| 0 <= k < self.relations@.len() && #[trigger] self.relations@[k].category@ == c
                        && self.relations@[k].table.has_edge(from, b);
                }
            }
        }
        r
    }

    /// The sources of the edges that end at `to`, under any category. A
    /// source related under several categories comes once for each.
    pub fn relations_incomming_any(&self, to: Handle) -> (r: Vec<Handle>)
        requires
            self.wf(),
        ensures
            forall|b: Handle| #[trigger] r@.contains(b) <==> (exists|c: u64| #[trigger] self.related(c, b, to)),
    {
        let mut r: Vec<Handle> = Vec::new();
        let mut i: usize = 0;
        while i < self.relations.len()
            invariant
                self.wf(),
                i <= self.relations@.len(),
                forall|b: Handle| #[trigger] r@.contains(b) <==> exists|k: int|
                    0 <= k < i && #[trigger] self.relations@[k].table.has_edge(b, to),
            decreases self.relations@.len() - i,
        {
            let mut more = self.relations[i].table.incoming(to);
            let ghost r0 = r@;
            let ghost more0 = more@;
            r.append(&mut more);
            proof {
                assert forall|b: Handle| #[trigger] r@.contains(b) <==> exists|k: int|
                    0 <= k < i + 1 && #[trigger] self.relations@[k].table.has_edge(b, to) by {
                    assert(r@ =~= r0 + more0);
                    if r@.contains(b) {
                        let m = choose|m: int| 0 <= m < r@.len() && r@[m] == b;
                        if m < r0.len() {
                            assert(r0[m] == b);
                            assert(r0.contains(b));
                            let k = choose|k: int| 0 <= k < i && #[trigger] self.relations@[k].table.has_edge(b, to);
                            assert(self.relations@[k].table.has_edge(b, to));
                        } else {
                            assert(more0[m - r0.len()] == b);
                            assert(more0.contains(b));
                            assert(self.relations@[i as int].table.has_edge(b, to));
                        }
                    }
                    if exists|k: int| 0 <= k < i + 1 && #[trigger] self.relations@[k].table.has_edge(b, to) {
                        let k = choose|k: int| 0 <= k < i + 1 && #[trigger] self.relations@[k].table.has_edge(b, to);
                        if k < i {
                            assert(r0.contains(b));
                            let m = choose|m: int| 0 <= m < r0.len() && r0[m] == b;
                            assert(r@[m] == b);
                        } else {
                            assert(more0.contains(b));
                            let m = choose|m: int| 0 <= m < more0.len() && more0[m] == b;
                            assert(r@[r0.len() + m] == b);
                        }
                    }
                }
            }
            i = i + 1;
        }
        proof {
            assert forall|b: Handle| #[trigger] r@.contains(b) <==> (exists|c: u64| #[trigger] self.related(c, b, to)) by {
                if r@.contains(b) {
                    let k = choose|k: int| 0 <= k < self.relations@.len() && #[trigger] self.relations@[k].table.has_edge(b, to);
                    assert(self.related(self.relations@[k].category@, b, to));
                }
                if (exists|c: u64| #[trigger] self.related(c, b, to)) {
                    let c = choose|c: u64| #[trigger] self.related(c, b, to);
                    let k = choose|k: int| 0 <= k < self.relations@.len() && #[trigger] self.relations@[k].category@ == c
                        && self.relations@[k].table.has_edge(b, to);
                }
            }
        }
        r
    }

    /// Every edge of the graph, as (category, source, target).
    pub fn relations(&self) -> (r: Vec<(TypeTag, Handle, Handle)>)
        requires
            self.wf(),
        ensures
            forall|k: int| 0 <= k < r@.len() ==> self.related((#[trigger] r@[k]).0@, r@[k].1, r@[k].2),
            forall|c: u64, a: Handle, b: Handle| #[trigger] self.related(c, a, b)
                ==> exists|k: int| 0 <= k < r@.len() && (#[trigger] r@[k]).0@ == c && r@[k].1 == a && r@[k].2 == b,
    {
        let mut r: Vec<(TypeTag, Handle, Handle)> = Vec::new();
        let mut i: usize = 0;
        while i < self.relations.len()
            invariant
                self.wf(),
                i <= self.relations@.len(),
                forall|k: int| 0 <= k < r@.len() ==> self.related((#[trigger] r@[k]).0@, r@[k].1, r@[k].2),
                forall|q: int, a: Handle, b: Handle| 0 <= q < i && #[trigger] self.relations@[q].table.has_edge(a, b)
                    ==> exists|k: int| 0 <= k < r@.len() && (#[trigger] r@[k]).0@ == self.relations@[q].category@
                        && r@[k].1 == a && r@[k].2 == b,
            decreases self.relations@.len() - i,
        {
            let category = self.relations[i].category;
            let pairs = self.relations[i].table.iter();
            let ghost r0 = r@;
            let mut j: usize = 0;
            while j < pairs.len()
                invariant
                    self.wf(),
                    i < self.relations@.len(),
                    category == self.relations@[i as int].category,
                    j <= pairs@.len(),
                    forall|a: Handle, b: Handle| #[trigger] pairs@.contains((a, b)) <==> self.relations@[i as int].table.has_edge(a, b),
                    r@.len() == r0.len() + j,
                    forall|k: int| 0 <= k < r0.len() ==> r@[k] == r0[k],
                    forall|k: int| 0 <= k < j ==> r@[r0.len() + k] == (category, pairs@[k].0, pairs@[k].1),
                    forall|k: int| 0 <= k < r@.len() ==> self.related((#[trigger] r@[k]).0@, r@[k].1, r@[k].2),
                decreases pairs@.len() - j,
            {
                let (a, b) = pairs[j];
                proof {
                    assert(pairs@.contains((a, b)));
                    assert(self.related(category@, a, b));
                }
                r.push((category, a, b));
                j = j + 1;
            }
            proof {
                assert forall|q: int, a: Handle, b: Handle| 0 <= q < i + 1 && #[trigger] self.relations@[q].table.has_edge(a, b)
                    implies exists|k: int| 0 <= k < r@.len() && (#[trigger] r@[k]).0@ == self.relations@[q].category@
                        && r@[k].1 == a && r@[k].2 == b by {
                    if q < i {
                        let k = choose|k: int| 0 <= k < r0.len() && (#[trigger] r0[k]).0@ == self.relations@[q].category@
                            && r0[k].1 == a && r0[k].2 == b;
                        assert(r@[k] == r0[k]);
                    } else {
                        assert(pairs@.contains((a, b)));
                        let m = choose|m: int| 0 <= m < pairs@.len() && pairs@[m] == (a, b);
                        assert(r@[r0.len() + m] == (category, a, b));
                    }
                }
            }
            i = i + 1;
        }
        proof {
            assert forall|c: u64, a: Handle, b: Handle| #[trigger] self.related(c, a, b)
                implies exists|k: int| 0 <= k < r@.len() && (#[trigger] r@[k]).0@ == c && r@[k].1 == a && r@[k].2 == b by {
                let q = choose|q: int| 0 <= q < self.relations@.len() && #[trigger] self.relations@[q].category@ == c
                    && self.relations@[q].table.has_edge(a, b);
            }
        }
        r
    }

    /// The targets of the edges that start at `from` under `category` whose
    /// value is of the type `ty`, each once.
    pub fn find(&self, from: Handle, category: TypeTag, ty: TypeTag) -> (r: Vec<Handle>)
        requires
            self.wf(),
        ensures
            r@.no_duplicates(),
            forall|b: Handle| #[trigger] r@.contains(b) <==> (self.related(category@, from, b) && b.type_hash == ty@
                && self.nodes().contains(b)),
    {
        let all = self.relations_outgoing(from, category);
        let mut r: Vec<Handle> = Vec::new();
        let mut i: usize = 0;
        while i < all.len()
            invariant
                self.wf(),
                i <= all@.len(),
                all@.no_duplicates(),
                forall|b: Handle| #[trigger] all@.contains(b) <==> self.related(category@, from, b),
                r@.no_duplicates(),
                forall|b: Handle| #[trigger] r@.contains(b) <==> exists|k: int| 0 <= k < i && #[trigger] all@[k] == b
                    && b.type_hash == ty@ && self.nodes().contains(b),
            decreases all@.len() - i,
        {
            let b = all[i];
            if self.is(b, ty) {
                proof {
                    assert(!r@.contains(b)) by {
                        if r@.contains(b) {
                            let k = choose|k: int| 0 <= k < i && #[trigger] all@[k] == b && b.type_hash == ty@ && self.nodes().contains(b);
                            assert(all@[k] == all@[i as int]);
                        }
                    }
                }
                let ghost r0 = r@;
                r.push(b);
                proof {
                    assert forall|x: Handle| #[trigger] r@.contains(x) <==> exists|k: int| 0 <= k < i + 1 && #[trigger] all@[k] == x
                        && x.type_hash == ty@ && self.nodes().contains(x) by {
                        if r@.contains(x) && x != b {
                            let m = choose|m: int| 0 <= m < r@.len() && r@[m] == x;
                            assert(r0[m] == x);
                            assert(r0.contains(x));
                        }
                        if x == b {
                            assert(r@[r@.len() - 1] == x);
                            assert(all@[i as int] == x);
                        }
                        if exists|k: int| 0 <= k < i + 1 && #[trigger] all@[k] == x && x.type_hash == ty@ && self.nodes().contains(x) {
                            if x != b {
                                let k = choose|k: int| 0 <= k < i + 1 && #[trigger] all@[k] == x && x.type_hash == ty@ && self.nodes().contains(x);
                                assert(k < i);
                                assert(r0.contains(x));
                                let m = choose|m: int| 0 <= m < r0.len() && r0[m] == x;
                                assert(r@[m] == x);
                            }
                        }
                    }
                }
            } else {
                proof {
                    assert forall|x: Handle| #[trigger] r@.contains(x) <==> exists|k: int| 0 <= k < i + 1 && #[trigger] all@[k] == x
                        && x.type_hash == ty@ && self.nodes().contains(x) by {
                        if exists|k: int| 0 <= k < i + 1 && #[trigger] all@[k] == x && x.type_hash == ty@ && self.nodes().contains(x) {
                            let k = choose|k: int| 0 <= k < i + 1 && #[trigger] all@[k] == x && x.type_hash == ty@ && self.nodes().contains(x);
                            assert(k < i);
                        }
                    }
                }
            }
            i = i + 1;
        }
        proof {
            assert forall|b: Handle| #[trigger] r@.contains(b) <==> (self.related(category@, from, b) && b.type_hash == ty@
                && self.nodes().contains(b)) by {
                if self.related(category@, from, b) && b.type_hash == ty@ && self.nodes().contains(b) {
                    assert(all@.contains(b));
                    let k = choose|k: int| 0 <= k < all@.len() && all@[k] == b;
                    assert(all@[k] == b);
                }
                if r@.contains(b) {
                    let k = choose|k: int| 0 <= k < i && #[trigger] all@[k] == b && b.type_hash == ty@ && self.nodes().contains(b);
                    assert(all@.contains(b));
                }
            }
        }
        r
    }

    /// Drops every value and every relation table.
    pub fn clear(&mut self)
        ensures
            final(self).wf(),
            final(self).nodes() == Set::<Handle>::empty(),
            forall|c: u64, a: Handle, b: Handle| !#[trigger] final(self).related(c, a, b),
    {
        arena_clear(&mut self.nodes);
        self.types = Vec::new();
        self.relations = Vec::new();
    }
}

/// A change to one edge: whether it relates or unrelates, the category's
/// hash, the source and the target.
pub type EdgeChange = (bool, u64, Handle, Handle);

/// Whether `after` is `before` with the edge of `op` set as `op` says and
/// every other edge as it was.
pub open spec fn applies(before: Graph, after: Graph, op: EdgeChange) -> bool {
    forall|c: u64, a: Handle, b: Handle| #[trigger] after.related(c, a, b)
        == if c == op.1 && a == op.2 && b == op.3 { op.0 } else { before.related(c, a, b) }
}

/// The last change in `ops` to the edge from `a` to `b` under `c`: whether it
/// related them, or `None` where no change touched that edge.
pub open spec fn last_change(ops: Seq<EdgeChange>, c: u64, a: Handle, b: Handle) -> Option<bool>
    decreases ops.len(),
{
    if ops.len() == 0 {
        None
    } else if ops.last().1 == c && ops.last().2 == a && ops.last().3 == b {
        Some(ops.last().0)
    } else {
        last_change(ops.drop_last(), c, a, b)
    }
}

/// After any sequence of `relate` and `unrelate` calls, two handles are
/// related under a category exactly when the last of those calls on that
/// category and pair related them; where no call touched the pair, as they
/// were before.
pub proof fn lemma_relation_history(states: Seq<Graph>, ops: Seq<EdgeChange>)
    requires
        states.len() == ops.len() + 1,
        forall|i: int| 0 <= i < ops.len() ==> applies(#[trigger] states[i], states[i + 1], ops[i]),
    ensures
        forall|c: u64, a: Handle, b: Handle| #[trigger] states.last().related(c, a, b) == match last_change(ops, c, a, b) {
            Some(r) => r,
            None => states[0].related(c, a, b),
        },
    decreases ops.len(),
{
    if ops.len() > 0 {
        let n = ops.len() - 1;
        lemma_relation_history(states.drop_last(), ops.drop_last());
        assert(applies(states[n], states[n + 1], ops[n]));
        assert(states.drop_last().last() == states[n]);
        assert forall|c: u64, a: Handle, b: Handle| #[trigger] states.last().related(c, a, b) == match last_change(ops, c, a, b) {
            Some(r) => r,
            None => states[0].related(c, a, b),
        } by {
            assert(states.last().related(c, a, b) == if c == ops[n].1 && a == ops[n].2 && b == ops[n].3 { ops[n].0 } else {
                states[n].related(c, a, b) });
            assert(states.drop_last()[0] == states[0]);
        }
    }
}

/// Once `remove(index)` has run, no edge of any category starts or ends at
/// `index`.
pub proof fn lemma_removed_is_isolated(before: Graph, after: Graph, index: Handle)
    requires
        forall|c: u64, a: Handle, b: Handle| #[trigger] after.related(c, a, b)
            <==> (before.related(c, a, b) && a != index && b != index),
    ensures
        forall|c: u64, x: Handle| !#[trigger] after.related(c, index, x),
        forall|c: u64, x: Handle| !#[trigger] after.related(c, x, index),
        forall|x: Handle| !#[trigger] after.step(None, index, x),
{
    assert forall|x: Handle| !#[trigger] after.step(None, index, x) by {
        if after.step(None, index, x) {
            let c = choose|c: u64| #[trigger] after.related(c, index, x);
        }
    }
}

/// `out` followed by the handles of `nbrs` it does not hold yet, in order.
pub open spec fn append_new(out: Seq<Handle>, nbrs: Seq<Handle>) -> Seq<Handle>
    decreases nbrs.len(),
{
    if nbrs.len() == 0 {
        out
    } else {
        let rest = append_new(out, nbrs.drop_last());
        if rest.contains(nbrs.last()) {
            rest
        } else {
            rest.push(nbrs.last())
        }
    }
}

/// Once the search has ended, more fuel changes nothing.
proof fn lemma_bfs_fuel(g: &Graph, c: Option<u64>, out: Seq<Handle>, i: nat, n: nat, m: nat)
    requires
        g.bfs_ends(c, out, i, n),
        n <= m,
    ensures
        g.bfs_ends(c, out, i, m),
        g.bfs(c, out, i, m) == g.bfs(c, out, i, n),
    decreases n,
{
    if i < out.len() && n > 0 {
        lemma_bfs_fuel(g, c, append_new(out, g.nbr_seq(c, out[i as int])), i + 1, (n - 1) as nat, (m - 1) as nat);
    }
}

impl Default for Graph {
    /// An empty graph.
    fn default() -> (r: Graph)
        ensures
            r.wf(),
            r.nodes() == Set::<Handle>::empty(),
            forall|c: u64, a: Handle, b: Handle| !#[trigger] r.related(c, a, b),
    {
        Graph::new()
    }
}

/// The category of a walk: `None` for any category.
pub open spec fn category_view(c: Option<TypeTag>) -> Option<u64> {
    match c {
        Some(t) => Some(t@),
        None => None,
    }
}

proof fn lemma_walk_push(g: &Graph, c: Option<u64>, w: Seq<Handle>, b: Handle)
    requires
        g.is_walk(c, w),
        g.step(c, w.last(), b),
    ensures
        g.is_walk(c, w.push(b)),
{
    let v = w.push(b);
    assert forall|i: int| 0 <= i < v.len() - 1 implies #[trigger] g.step(c, v[i], v[i + 1]) by {
        if i < w.len() - 1 {
            assert(g.step(c, w[i], w[i + 1]));
        }
    }
}

proof fn lemma_walk_slice(g: &Graph, c: Option<u64>, w: Seq<Handle>, lo: int, hi: int)
    requires
        g.is_walk(c, w),
        0 <= lo < hi <= w.len(),
    ensures
        g.is_walk(c, w.subrange(lo, hi)),
{
    let v = w.subrange(lo, hi);
    assert forall|i: int| 0 <= i < v.len() - 1 implies #[trigger] g.step(c, v[i], v[i + 1]) by {
        assert(g.step(c, w[lo + i], w[lo + i + 1]));
    }
}

/// A set closed under steps holds the end of every walk that starts in it.
proof fn lemma_closed_reach(g: &Graph, c: Option<u64>, s: Set<Handle>, w: Seq<Handle>)
    requires
        g.is_walk(c, w),
        s.contains(w[0]),
        forall|x: Handle, y: Handle| s.contains(x) && #[trigger] g.step(c, x, y) ==> s.contains(y),
    ensures
        s.contains(w.last()),
    decreases w.len(),
{
    if w.len() > 1 {
        let v = w.drop_last();
        lemma_walk_slice(g, c, w, 0, w.len() - 1);
        assert(v =~= w.subrange(0, w.len() - 1));
        lemma_closed_reach(g, c, s, v);
        let i = w.len() - 2;
        assert(g.step(c, w[i], w[i + 1]));
    }
}

/// A sequence without duplicates inside another is no longer than it.
proof fn lemma_unique_within(s: Seq<Handle>, u: Seq<Handle>)
    requires
        s.no_duplicates(),
        forall|k: int| 0 <= k < s.len() ==> u.contains(#[trigger] s[k]),
    ensures
        s.len() <= u.len(),
{
    s.unique_seq_to_set();
    u.lemma_cardinality_of_set();
    vstd::seq_lib::seq_to_set_is_finite(u);
    assert forall|x: Handle| s.to_set().contains(x) implies u.to_set().contains(x) by {
        let k = choose|k: int| 0 <= k < s.len() && s[k] == x;
        assert(u.contains(s[k]));
    }
    vstd::set_lib::lemma_len_subset(s.to_set(), u.to_set());
}

impl Graph {
    /// The handles one step away from `from`: under `category`, or under any
    /// category where it is `None`.
    fn neighbours(&self, from: Handle, category: Option<TypeTag>) -> (r: Vec<Handle>)
        requires
            self.wf(),
        ensures
            r@ == self.nbr_seq(category_view(category), from),
            forall|b: Handle| #[trigger] r@.contains(b) <==> self.step(category_view(category), from, b),
    {
        match category {
            Some(c) => self.relations_outgoing(from, c),
            None => self.relations_outgoing_any(from),
        }
    }

    /// Every handle that a walk from `from` reaches, `from` first, each once,
    /// in breadth-first order.
    pub fn traverse(&self, from: Handle, category: Option<TypeTag>) -> (r: Vec<Handle>)
        requires
            self.wf(),
        ensures
            r@ == self.traversal(category_view(category), from),
            r@.len() >= 1,
            r@[0] == from,
            r@.no_duplicates(),
            forall|h: Handle| #[trigger] r@.contains(h) <==> self.reachable(category_view(category), from, h),
    {
        let ghost c = category_view(category);
        let all = self.relations();
        let ghost universe = all@.map_values(|e: (TypeTag, Handle, Handle)| e.2).push(from);
        let mut out: Vec<Handle> = Vec::new();
        out.push(from);
        proof {
            assert(universe[universe.len() - 1] == from);
            assert(self.is_walk(c, seq![from]));
            assert(seq![from][0] == from && seq![from].last() == from);
            assert(out@ =~= seq![from]);
        }
        let mut i: usize = 0;
        while i < out.len()
            invariant
                self.wf(),
                c == category_view(category),
                forall|k: int| 0 <= k < all@.len() ==> self.related((#[trigger] all@[k]).0@, all@[k].1, all@[k].2),
                forall|cc: u64, a: Handle, b: Handle| #[trigger] self.related(cc, a, b)
                    ==> exists|k: int| 0 <= k < all@.len() && (#[trigger] all@[k]).0@ == cc && all@[k].1 == a && all@[k].2 == b,
                universe == all@.map_values(|e: (TypeTag, Handle, Handle)| e.2).push(from),
                out@.len() >= 1,
                out@[0] == from,
                out@.no_duplicates(),
                i <= out@.len(),
                out@.len() <= universe.len(),
                forall|k: int| 0 <= k < out@.len() ==> universe.contains(#[trigger] out@[k]),
                forall|k: int| 0 <= k < out@.len() ==> self.reachable(c, from, #[trigger] out@[k]),
                forall|k: int, b: Handle| 0 <= k < i && #[trigger] self.step(c, out@[k], b) ==> out@.contains(b),
                forall|n: nat| #[trigger] self.bfs(c, seq![from], 0, (n + i) as nat) == self.bfs(c, out@, i as nat, n),
                forall|n: nat| #[trigger] self.bfs_ends(c, seq![from], 0, (n + i) as nat) == self.bfs_ends(c, out@, i as nat, n),
            decreases universe.len() - i,
        {
            let u = out[i];
            let next = self.neighbours(u, category);
            let ghost out_i = out@;
            let mut j: usize = 0;
            while j < next.len()
                invariant
                    self.wf(),
                    c == category_view(category),
                    forall|k: int| 0 <= k < all@.len() ==> self.related((#[trigger] all@[k]).0@, all@[k].1, all@[k].2),
                    forall|cc: u64, a: Handle, b: Handle| #[trigger] self.related(cc, a, b)
                        ==> exists|k: int| 0 <= k < all@.len() && (#[trigger] all@[k]).0@ == cc && all@[k].1 == a && all@[k].2 == b,
                    universe == all@.map_values(|e: (TypeTag, Handle, Handle)| e.2).push(from),
                    forall|b: Handle| #[trigger] next@.contains(b) <==> self.step(c, u, b),
                    i < out@.len(),
                    u == out@[i as int],
                    out@.len() >= 1,
                    out@[0] == from,
                    out@.no_duplicates(),
                    j <= next@.len(),
                    out@.len() <= universe.len(),
                    forall|k: int| 0 <= k < out@.len() ==> universe.contains(#[trigger] out@[k]),
                    forall|k: int| 0 <= k < out@.len() ==> self.reachable(c, from, #[trigger] out@[k]),
                    forall|k: int, b: Handle| 0 <= k < i && #[trigger] self.step(c, out@[k], b) ==> out@.contains(b),
                    forall|m: int| 0 <= m < j ==> out@.contains(#[trigger] next@[m]),
                    out@ == append_new(out_i, next@.subrange(0, j as int)),
                    out_i.len() <= out@.len(),
                    out_i == out@.subrange(0, out_i.len() as int),
                    out_i[i as int] == u,
                decreases next@.len() - j,
            {
                let b = next[j];
                proof {
                    assert(next@.subrange(0, j + 1).drop_last() =~= next@.subrange(0, j as int));
                    assert(next@.subrange(0, j + 1).last() == b);
                }
                if !contains_handle(&out, b) {
                    proof {
                        assert(next@.contains(b));
                        assert(self.step(c, u, b));
                        // b is the target of an edge, so it is in the universe
                        let cc = match c { Some(x) => x, None => choose|x: u64| #[trigger] self.related(x, u, b) };
                        assert(self.related(cc, u, b));
                        let k = choose|k: int| 0 <= k < all@.len() && (#[trigger] all@[k]).0@ == cc && all@[k].1 == u && all@[k].2 == b;
                        assert(universe[k] == b);
                        // and reachable through u
                        assert(self.reachable(c, from, out@[i as int]));
                        let w = choose|w: Seq<Handle>| #[trigger] self.is_walk(c, w) && w[0] == from && w.last() == u;
                        lemma_walk_push(self, c, w, b);
                        assert(w.push(b)[0] == from && w.push(b).last() == b);
                    }
                    let ghost o0 = out@;
                    out.push(b);
                    proof {
                        assert forall|k: int| 0 <= k < out@.len() implies universe.contains(#[trigger] out@[k]) by {
                            if k < o0.len() {
                                assert(o0[k] == out@[k]);
                            }
                        }
                        lemma_unique_within(out@, universe);
                        assert forall|k: int| 0 <= k < out@.len() implies self.reachable(c, from, #[trigger] out@[k]) by {
                            if k < o0.len() {
                                assert(o0[k] == out@[k]);
                            }
                        }
                        assert forall|x: Handle| o0.contains(x) implies out@.contains(x) by {
                            let k = choose|k: int| 0 <= k < o0.len() && o0[k] == x;
                            assert(out@[k] == x);
                        }
                        assert(out@[out@.len() - 1] == b);
                        assert forall|k: int| 0 <= k < out_i.len() implies out@[k] == out_i[k] by {
                            assert(o0.subrange(0, out_i.len() as int)[k] == o0[k]);
                        }
                        assert(out_i =~= out@.subrange(0, out_i.len() as int));
                    }
                }
                j = j + 1;
            }
            proof {
                assert(next@.subrange(0, next@.len() as int) =~= next@);
                assert(out_i.len() > i);
                assert forall|n: nat| #[trigger] self.bfs(c, seq![from], 0, (n + (i + 1)) as nat) == self.bfs(c, out@, (i + 1) as nat, n) by {
                    assert(self.bfs(c, seq![from], 0, ((n + 1) + i) as nat) == self.bfs(c, out_i, i as nat, (n + 1) as nat));
                    
                }
                assert forall|n: nat| #[trigger] self.bfs_ends(c, seq![from], 0, (n + (i + 1)) as nat) == self.bfs_ends(c, out@, (i + 1) as nat, n) by {
                    assert(self.bfs_ends(c, seq![from], 0, ((n + 1) + i) as nat) == self.bfs_ends(c, out_i, i as nat, (n + 1) as nat));
                    
                }
            }
            proof {
                assert forall|k: int, b: Handle| 0 <= k < i + 1 && #[trigger] self.step(c, out@[k], b) implies out@.contains(b) by {
                    if k == i {
                        assert(next@.contains(b));
                        let m = choose|m: int| 0 <= m < next@.len() && next@[m] == b;
                        assert(out@.contains(next@[m]));
                    }
                }
            }
            i = i + 1;
        }
        proof {
            let n0: nat = 0;
            assert(self.bfs(c, seq![from], 0, (n0 + i) as nat) == self.bfs(c, out@, i as nat, n0));
            assert(self.bfs_ends(c, seq![from], 0, (n0 + i) as nat) == self.bfs_ends(c, out@, i as nat, n0));
            assert((n0 + i) as nat == i as nat);
            assert(self.bfs(c, seq![from], 0, i as nat) == out@);
            assert(self.bfs_ends(c, seq![from], 0, i as nat));
            let n = choose|n: nat| self.bfs_ends(c, seq![from], 0, n);
            if n <= i {
                lemma_bfs_fuel(self, c, seq![from], 0, n, i as nat);
            } else {
                lemma_bfs_fuel(self, c, seq![from], 0, i as nat, n);
            }
            assert(out@ == self.traversal(c, from));
            let s = out@.to_set();
            assert forall|x: Handle, y: Handle| s.contains(x) && #[trigger] self.step(c, x, y) implies s.contains(y) by {
                let k = choose|k: int| 0 <= k < out@.len() && out@[k] == x;
                assert(self.step(c, out@[k], y));
            }
            assert forall|h: Handle| #[trigger] out@.contains(h) <==> self.reachable(c, from, h) by {
                if out@.contains(h) {
                    let k = choose|k: int| 0 <= k < out@.len() && out@[k] == h;
                    assert(self.reachable(c, from, out@[k]));
                }
                if self.reachable(c, from, h) {
                    let w = choose|w: Seq<Handle>| #[trigger] self.is_walk(c, w) && w[0] == from && w.last() == h;
                    assert(s.contains(out@[0]));
                    lemma_closed_reach(self, c, s, w);
                }
            }
        }
        out
    }

    /// Every handle that a walk under `category` from `from` reaches, `from`
    /// first, each once, in breadth-first order.
    pub fn relations_traverse(&self, from: Handle, category: TypeTag) -> (r: Vec<Handle>)
        requires
            self.wf(),
        ensures
            r@ == self.traversal(Some(category@), from),
            r@.len() >= 1,
            r@[0] == from,
            r@.no_duplicates(),
            forall|h: Handle| #[trigger] r@.contains(h) <==> self.reachable(Some(category@), from, h),
    {
        self.traverse(from, Some(category))
    }

    /// Every handle that a walk under any categories from `from` reaches,
    /// `from` first, each once, in breadth-first order.
    pub fn relations_traverse_any(&self, from: Handle) -> (r: Vec<Handle>)
        requires
            self.wf(),
        ensures
            r@ == self.traversal(None, from),
            r@.len() >= 1,
            r@[0] == from,
            r@.no_duplicates(),
            forall|h: Handle| #[trigger] r@.contains(h) <==> self.reachable(None, from, h),
    {
        self.traverse(from, None)
    }
}

/// One level of the depth-first walk: a handle on the current path, its
/// neighbours, and how many of them were looked at.
struct Frame {
    node: Handle,
    targets: Vec<Handle>,
    next: usize,
}

/// How many neighbours the frames have yet to look at.
spec fn remaining(frames: Seq<Frame>) -> nat
    decreases frames.len(),
{
    if frames.len() == 0 {
        0
    } else {
        let f = frames.last();
        remaining(frames.drop_last()) + if f.next <= f.targets@.len() {
            (f.targets@.len() - f.next) as nat
        } else {
            0
        }
    }
}

/// Every step out of a handle of `fin` leads to a handle earlier in `fin`.
spec fn finish_ordered(g: &Graph, c: Option<u64>, fin: Seq<Handle>) -> bool {
    forall|k: int, v: Handle| 0 <= k < fin.len() && #[trigger] g.step(c, fin[k], v)
        ==> exists|m: int| 0 <= m < k && fin[m] == v
}

/// No cycle passes through a handle of a finish-ordered sequence.
proof fn lemma_no_cycle_in(g: &Graph, c: Option<u64>, fin: Seq<Handle>, w: Seq<Handle>, i: int, k: int)
    requires
        finish_ordered(g, c, fin),
        0 <= i < w.len(),
        0 <= k < fin.len(),
        w[i] == fin[k],
    ensures
        !g.is_cycle(c, w),
    decreases k,
{
    if !g.is_cycle(c, w) {
        return;
    }
    let j = if i + 1 < w.len() { i + 1 } else { 0 };
    if i + 1 < w.len() {
        assert(g.step(c, w[i], w[i + 1]));
    }
    assert(g.step(c, fin[k], w[j]));
    let m = choose|m: int| 0 <= m < k && fin[m] == w[j];
    lemma_no_cycle_in(g, c, fin, w, j, m);
}

/// The handles of `items` from position `pos` on.
fn tail_from(items: &Vec<Handle>, pos: usize) -> (r: Vec<Handle>)
    requires
        pos <= items@.len(),
    ensures
        r@ == items@.subrange(pos as int, items@.len() as int),
{
    let mut r: Vec<Handle> = Vec::new();
    let mut i: usize = pos;
    while i < items.len()
        invariant
            pos <= i <= items@.len(),
            r@ == items@.subrange(pos as int, i as int),
        decreases items@.len() - i,
    {
        r.push(items[i]);
        i = i + 1;
        assert(r@ =~= items@.subrange(pos as int, i as int));
    }
    r
}

impl Graph {
    /// Looks for a cycle under `category` by a depth-first walk from
    /// `from`, kept on an explicit stack.
    ///
    /// The first time a neighbour is found on the current path, the part of
    /// the path from that neighbour on is returned: a cycle, each handle once.
    /// The result is empty exactly when no cycle is reachable from `from`.
    pub fn find_cycle(&self, category: TypeTag, from: Handle) -> (r: Vec<Handle>)
        requires
            self.wf(),
        ensures
            r@.len() > 0 ==> self.is_cycle(Some(category@), r@) && r@.no_duplicates()
                && self.reachable(Some(category@), from, r@[0]),
            r@.len() == 0 ==> forall|w: Seq<Handle>| #[trigger] self.is_cycle(Some(category@), w)
                ==> !self.reachable(Some(category@), from, w[0]),
    {
        let ghost c = Some(category@);
        let nodes = self.indices();
        let ghost universe = nodes@.push(from);
        let mut visited: Vec<Handle> = Vec::new();
        visited.push(from);
        let mut path: Vec<Handle> = Vec::new();
        path.push(from);
        let mut frames: Vec<Frame> = Vec::new();
        frames.push(Frame { node: from, targets: self.relations_outgoing(from, category), next: 0 });
        let ghost mut finished: Seq<Handle> = Seq::empty();
        proof {
            assert(universe[universe.len() - 1] == from);
            assert(visited@ =~= seq![from]);
            assert(path@ =~= seq![from]);
            assert(self.is_walk(c, path@));
        }
        while path.len() > 0
            invariant
                self.wf(),
                c == Some(category@),
                forall|h: Handle| #[trigger] nodes@.contains(h) <==> self.nodes().contains(h),
                universe == nodes@.push(from),
                frames@.len() == path@.len(),
                forall|k: int| 0 <= k < frames@.len() ==> (#[trigger] frames@[k]).node == path@[k],
                forall|k: int| 0 <= k < frames@.len() ==> (#[trigger] frames@[k]).next <= frames@[k].targets@.len(),
                forall|k: int, b: Handle| 0 <= k < frames@.len() ==> (#[trigger] frames@[k].targets@.contains(b)
                    <==> self.step(c, path@[k], b)),
                path@.no_duplicates(),
                path@.len() >= 1 ==> path@[0] == from && self.is_walk(c, path@),
                visited@.no_duplicates(),
                forall|x: Handle| #[trigger] visited@.contains(x) <==> (path@.contains(x) || finished.contains(x)),
                forall|x: Handle| !(#[trigger] path@.contains(x) && finished.contains(x)),
                visited@.len() >= 1,
                visited@[0] == from,
                finish_ordered(self, c, finished),
                forall|k: int, m: int| 0 <= k < frames@.len() && 0 <= m < frames@[k].next ==>
                    finished.contains(#[trigger] frames@[k].targets@[m]) || (k + 1 < frames@.len() && m == frames@[k].next - 1
                        && frames@[k].targets@[m] == path@[k + 1]),
                forall|k: int| 0 <= k < visited@.len() ==> universe.contains(#[trigger] visited@[k]),
                visited@.len() <= universe.len(),
            decreases universe.len() - visited@.len(), remaining(frames@), frames@.len(),
        {
            let top = path.len() - 1;
            if frames[top].next < frames[top].targets.len() {
                let target = frames[top].targets[frames[top].next];
                let ghost f0 = frames@;
                let ghost m0 = frames@[top as int].next as int;
                frames[top].next = frames[top].next + 1;
                proof {
                    assert(f0[top as int].targets@.contains(target));
                    assert(self.step(c, path@[top as int], target));
                    assert(frames@.drop_last() =~= f0.drop_last());
                    assert(remaining(frames@) < remaining(f0));
                    assert(forall|k: int| 0 <= k < frames@.len() && k != top ==> #[trigger] frames@[k] == f0[k]);
                }
                match position_of(&path, target) {
                    Some(pos) => {
                        let r = tail_from(&path, pos);
                        proof {
                            lemma_walk_slice(self, c, path@, pos as int, path@.len() as int);
                            lemma_walk_slice(self, c, path@, 0, pos + 1);
                            let pre = path@.subrange(0, pos + 1);
                            assert(pre[0] == from && pre.last() == path@[pos as int]);
                            assert(r@[0] == target);
                            assert(r@.last() == path@[top as int]);
                            assert(r@.no_duplicates()) by {
                                assert forall|x: int, y: int| 0 <= x < r@.len() && 0 <= y < r@.len() && x != y
                                    implies r@[x] != r@[y] by {
                                    assert(r@[x] == path@[pos + x]);
                                    assert(r@[y] == path@[pos + y]);
                                }
                            }
                        }
                        return r;
                    },
                    None => {
                        if !contains_handle(&visited, target) {
                            let targets = self.relations_outgoing(target, category);
                            let ghost v0 = visited@;
                            let ghost path0 = path@;
                            let ghost f1 = frames@;
                            proof {
                                assert(self.related(category@, path@[top as int], target));
                                assert(self.nodes().contains(target));
                                assert(nodes@.contains(target));
                                let q = choose|q: int| 0 <= q < nodes@.len() && nodes@[q] == target;
                                assert(universe[q] == target);
                            }
                            visited.push(target);
                            assert(visited@[0] == v0[0]);
                            path.push(target);
                            frames.push(Frame { node: target, targets, next: 0 });
                            proof {
                                lemma_walk_push(self, c, path0, target);
                                assert forall|k: int| 0 <= k < visited@.len() implies universe.contains(#[trigger] visited@[k]) by {
                                    if k < v0.len() {
                                        assert(v0[k] == visited@[k]);
                                    }
                                }
                                lemma_unique_within(visited@, universe);
                                assert forall|x: Handle| #[trigger] visited@.contains(x) <==> (path@.contains(x) || finished.contains(x)) by {
                                    if visited@.contains(x) && x != target {
                                        let k = choose|k: int| 0 <= k < visited@.len() && visited@[k] == x;
                                        assert(v0[k] == x);
                                        assert(v0.contains(x));
                                        if path0.contains(x) {
                                            let q = choose|q: int| 0 <= q < path0.len() && path0[q] == x;
                                            assert(path@[q] == x);
                                        }
                                    }
                                    if path@.contains(x) && x != target {
                                        let k = choose|k: int| 0 <= k < path@.len() && path@[k] == x;
                                        assert(path0[k] == x);
                                        assert(path0.contains(x));
                                        assert(v0.contains(x));
                                        let q = choose|q: int| 0 <= q < v0.len() && v0[q] == x;
                                        assert(visited@[q] == x);
                                    }
                                    if finished.contains(x) {
                                        assert(v0.contains(x));
                                        let q = choose|q: int| 0 <= q < v0.len() && v0[q] == x;
                                        assert(visited@[q] == x);
                                    }
                                    if x == target {
                                        assert(visited@[visited@.len() - 1] == x);
                                        assert(path@[path@.len() - 1] == x);
                                    }
                                }
                                assert forall|x: Handle| !(#[trigger] path@.contains(x) && finished.contains(x)) by {
                                    if path@.contains(x) && x != target {
                                        let k = choose|k: int| 0 <= k < path@.len() && path@[k] == x;
                                        assert(path0[k] == x);
                                        assert(path0.contains(x));
                                    }
                                }
                                assert forall|k: int, b: Handle| 0 <= k < frames@.len() implies (#[trigger] frames@[k].targets@.contains(b)
                                    <==> self.step(c, path@[k], b)) by {
                                    if k < f1.len() {
                                        assert(frames@[k] == f1[k]);
                                        assert(path@[k] == path0[k]);
                                    }
                                }
                                assert forall|k: int, m: int| 0 <= k < frames@.len() && 0 <= m < frames@[k].next implies
                                    finished.contains(#[trigger] frames@[k].targets@[m]) || (k + 1 < frames@.len() && m == frames@[k].next - 1
                                        && frames@[k].targets@[m] == path@[k + 1]) by {
                                    assert(frames@[k] == f1[k]);
                                    if k < top {
                                        assert(path@[k + 1] == path0[k + 1]);
                                    }
                                    if k == top && m < m0 {
                                        assert(f1[k].targets@[m] == f0[k].targets@[m]);
                                    }
                                }
                            }
                        } else {
                            proof {
                                assert(finished.contains(target));
                                assert forall|k: int, m: int| 0 <= k < frames@.len() && 0 <= m < frames@[k].next implies
                                    finished.contains(#[trigger] frames@[k].targets@[m]) || (k + 1 < frames@.len() && m == frames@[k].next - 1
                                        && frames@[k].targets@[m] == path@[k + 1]) by {
                                    if k == top && m < m0 {
                                        assert(frames@[k].targets@[m] == f0[k].targets@[m]);
                                    }
                                }
                            }
                        }
                    },
                }
            } else {
                let ghost path0 = path@;
                let ghost f0 = frames@;
                let ghost fin0 = finished;
                let u = path.pop().unwrap();
                frames.pop();
                proof {
                    finished = finished.push(u);
                    assert(path0.last() == u);
                    assert(path@ =~= path0.drop_last());
                    assert(frames@ =~= f0.drop_last());
                    assert(remaining(f0) == remaining(frames@));
                    if path@.len() >= 1 {
                        lemma_walk_slice(self, c, path0, 0, path0.len() - 1);
                        assert(path@ =~= path0.subrange(0, path0.len() - 1));
                    }
                    // every neighbour of u is finished already
                    assert forall|v: Handle| #[trigger] self.step(c, u, v) implies fin0.contains(v) by {
                        assert(f0[top as int].targets@.contains(v));
                        let m = choose|m: int| 0 <= m < f0[top as int].targets@.len() && f0[top as int].targets@[m] == v;
                        assert(fin0.contains(f0[top as int].targets@[m]));
                    }
                    assert forall|k: int, v: Handle| 0 <= k < finished.len() && #[trigger] self.step(c, finished[k], v)
                        implies exists|m: int| 0 <= m < k && finished[m] == v by {
                        if k < fin0.len() {
                            assert(finished[k] == fin0[k]);
                            let m = choose|m: int| 0 <= m < k && fin0[m] == v;
                            assert(finished[m] == v);
                        } else {
                            assert(fin0.contains(v));
                            let m = choose|m: int| 0 <= m < fin0.len() && fin0[m] == v;
                            assert(finished[m] == v);
                        }
                    }
                    assert(!fin0.contains(u)) by {
                        assert(path0.contains(u)) by {
                            assert(path0[top as int] == u);
                        }
                    }
                    assert forall|x: Handle| !(#[trigger] path@.contains(x) && finished.contains(x)) by {
                        if path@.contains(x) {
                            let k = choose|k: int| 0 <= k < path@.len() && path@[k] == x;
                            assert(path0[k] == x);
                            assert(path0.contains(x));
                            assert(x != u) by {
                                assert(path0[top as int] == u);
                            }
                            if finished.contains(x) {
                                let q = choose|q: int| 0 <= q < finished.len() && finished[q] == x;
                                if q < fin0.len() {
                                    assert(fin0[q] == x);
                                }
                            }
                        }
                    }
                    assert forall|x: Handle| #[trigger] visited@.contains(x) <==> (path@.contains(x) || finished.contains(x)) by {
                        if path0.contains(x) {
                            let k = choose|k: int| 0 <= k < path0.len() && path0[k] == x;
                            if k < top {
                                assert(path@[k] == x);
                            } else {
                                assert(finished[finished.len() - 1] == x);
                            }
                        }
                        if fin0.contains(x) {
                            let q = choose|q: int| 0 <= q < fin0.len() && fin0[q] == x;
                            assert(finished[q] == x);
                        }
                        if path@.contains(x) {
                            let k = choose|k: int| 0 <= k < path@.len() && path@[k] == x;
                            assert(path0[k] == x);
                        }
                        if finished.contains(x) {
                            let q = choose|q: int| 0 <= q < finished.len() && finished[q] == x;
                            if q < fin0.len() {
                                assert(fin0[q] == x);
                            } else {
                                assert(path0[top as int] == x);
                            }
                        }
                    }
                    assert forall|k: int, m: int| 0 <= k < frames@.len() && 0 <= m < frames@[k].next implies
                        finished.contains(#[trigger] frames@[k].targets@[m]) || (k + 1 < frames@.len() && m == frames@[k].next - 1
                            && frames@[k].targets@[m] == path@[k + 1]) by {
                        assert(frames@[k] == f0[k]);
                        let t = f0[k].targets@[m];
                        if fin0.contains(t) {
                            let q = choose|q: int| 0 <= q < fin0.len() && fin0[q] == t;
                            assert(finished[q] == t);
                        } else if k + 1 == top {
                            assert(t == path0[top as int]);
                            assert(finished[finished.len() - 1] == t);
                        } else {
                            assert(path@[k + 1] == path0[k + 1]);
                        }
                    }
                    assert forall|k: int, b: Handle| 0 <= k < frames@.len() implies (#[trigger] frames@[k].targets@.contains(b)
                        <==> self.step(c, path@[k], b)) by {
                        assert(frames@[k] == f0[k]);
                        assert(path@[k] == path0[k]);
                    }
                }
            }
        }
        proof {
            assert(visited@.contains(visited@[0]));
            assert(finished.contains(from));
            let s = finished.to_set();
            assert forall|x: Handle, y: Handle| s.contains(x) && #[trigger] self.step(c, x, y) implies s.contains(y) by {
                let k = choose|k: int| 0 <= k < finished.len() && finished[k] == x;
                assert(self.step(c, finished[k], y));
                let m = choose|m: int| 0 <= m < k && finished[m] == y;
                assert(finished[m] == y);
            }
            assert forall|w: Seq<Handle>| #[trigger] self.is_cycle(c, w) implies !self.reachable(c, from, w[0]) by {
                if self.reachable(c, from, w[0]) {
                    let p = choose|p: Seq<Handle>| #[trigger] self.is_walk(c, p) && p[0] == from && p.last() == w[0];
                    assert(s.contains(from));
                    lemma_closed_reach(self, c, s, p);
                    let k = choose|k: int| 0 <= k < finished.len() && finished[k] == w[0];
                    lemma_no_cycle_in(self, c, finished, w, 0, k);
                }
            }
        }
        Vec::new()
    }

    /// The cycles under `category` that [`Graph::find_cycle`] finds from each
    /// stored value, skipping the values it finds none from. One cycle may be
    /// reported from several values.
    pub fn find_cycles(&self, category: TypeTag) -> (r: Vec<Vec<Handle>>)
        requires
            self.wf(),
        ensures
            forall|k: int| 0 <= k < r@.len() ==> (#[trigger] r@[k])@.len() > 0 && self.is_cycle(Some(category@), r@[k]@)
                && r@[k]@.no_duplicates(),
            r@.len() == 0 <==> forall|w: Seq<Handle>| !#[trigger] self.is_cycle(Some(category@), w),
    {
        let ghost c = Some(category@);
        let nodes = self.indices();
        let mut r: Vec<Vec<Handle>> = Vec::new();
        let mut i: usize = 0;
        while i < nodes.len()
            invariant
                self.wf(),
                c == Some(category@),
                i <= nodes@.len(),
                forall|h: Handle| #[trigger] nodes@.contains(h) <==> self.nodes().contains(h),
                forall|k: int| 0 <= k < r@.len() ==> (#[trigger] r@[k])@.len() > 0 && self.is_cycle(c, r@[k]@)
                    && r@[k]@.no_duplicates(),
                r@.len() == 0 ==> forall|k: int, w: Seq<Handle>| 0 <= k < i && #[trigger] self.is_cycle(c, w)
                    ==> !self.reachable(c, #[trigger] nodes@[k], w[0]),
            decreases nodes@.len() - i,
        {
            let cycle = self.find_cycle(category, nodes[i]);
            if cycle.len() > 0 {
                r.push(cycle);
                proof {
                    assert(r@[r@.len() - 1] == cycle);
                }
            }
            i = i + 1;
        }
        proof {
            if r@.len() > 0 {
                assert(self.is_cycle(c, r@[0]@));
            } else {
                assert forall|w: Seq<Handle>| !#[trigger] self.is_cycle(c, w) by {
                    if self.is_cycle(c, w) {
                        assert(self.related(category@, w.last(), w[0]));
                        assert(nodes@.contains(w[0]));
                        let k = choose|k: int| 0 <= k < nodes@.len() && nodes@[k] == w[0];
                        let single = seq![w[0]];
                        assert(self.is_walk(c, single));
                        assert(single[0] == w[0] && single.last() == w[0]);
                        assert(self.reachable(c, nodes@[k], w[0]));
                    }
                }
            }
        }
        r
    }
}

/// Whether `items` holds `h`.
fn contains_handle(items: &Vec<Handle>, h: Handle) -> (r: bool)
    ensures
        r == items@.contains(h),
{
    position_of(items, h).is_some()
}

/// The position of `h` in `items`, if it is there.
fn position_of(items: &Vec<Handle>, h: Handle) -> (r: Option<usize>)
    ensures
        match r {
            Some(p) => p < items@.len() && items@[p as int] == h,
            None => !items@.contains(h),
        },
{
    let mut i: usize = 0;
    while i < items.len()
        invariant
            i <= items@.len(),
            forall|k: int| 0 <= k < i ==> items@[k] != h,
        decreases items@.len() - i,
    {
        if items[i] == h {
            return Some(i);
        }
        i = i + 1;
    }
    None
}

} // verus!
