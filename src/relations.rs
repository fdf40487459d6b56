use crate::handle::Handle;
use vstd::prelude::*;

verus! {

/// One node's neighbours in one direction.
#[derive(Debug)]
pub struct Adjacency {
    pub node: Handle,
    pub links: Vec<Handle>,
}

/// Whether `entries` links `a` to `b`.
pub open spec fn has_link(entries: Seq<Adjacency>, a: Handle, b: Handle) -> bool {
    exists|i: int| 0 <= i < entries.len() && #[trigger] entries[i].node == a && entries[i].links@.contains(b)
}

/// No node has two entries.
pub open spec fn keys_unique(entries: Seq<Adjacency>) -> bool {
    forall|i: int, j: int|
        0 <= i < entries.len() && 0 <= j < entries.len() && #[trigger] entries[i].node == #[trigger] entries[j].node
            ==> i == j
}

/// No entry lists a neighbour twice.
pub open spec fn links_unique(entries: Seq<Adjacency>) -> bool {
    forall|i: int| 0 <= i < entries.len() ==> (#[trigger] entries[i]).links@.no_duplicates()
}

/// The neighbours listed for `a`, in the order they are kept.
pub open spec fn links_seq(entries: Seq<Adjacency>, a: Handle) -> Seq<Handle> {
    if exists|i: int| 0 <= i < entries.len() && #[trigger] entries[i].node == a {
        let i = choose|i: int| 0 <= i < entries.len() && #[trigger] entries[i].node == a;
        entries[i].links@
    } else {
        Seq::empty()
    }
}

pub open spec fn adjacency_wf(entries: Seq<Adjacency>) -> bool {
    keys_unique(entries) && links_unique(entries)
}

proof fn lemma_link_at(entries: Seq<Adjacency>, p: int, a: Handle, b: Handle)
    requires
        keys_unique(entries),
        0 <= p < entries.len(),
        entries[p].node == a,
    ensures
        has_link(entries, a, b) <==> entries[p].links@.contains(b),
{
    if has_link(entries, a, b) {
        let i = choose|i: int| 0 <= i < entries.len() && #[trigger] entries[i].node == a && entries[i].links@.contains(b);
        assert(entries[i].node == entries[p].node);
    }
}

proof fn lemma_no_entry(entries: Seq<Adjacency>, a: Handle, b: Handle)
    requires
        forall|i: int| 0 <= i < entries.len() ==> (#[trigger] entries[i]).node != a,
    ensures
        !has_link(entries, a, b),
{
}

/// The position of `a`'s entry, if it has one.
fn find_entry(entries: &Vec<Adjacency>, a: Handle) -> (r: Option<usize>)
    ensures
        match r {
            Some(p) => p < entries@.len() && entries@[p as int].node == a,
            None => forall|i: int| 0 <= i < entries@.len() ==> (#[trigger] entries@[i]).node != a,
        },
{
    let mut i: usize = 0;
    while i < entries.len()
        invariant
            i <= entries@.len(),
            forall|k: int| 0 <= k < i ==> (#[trigger] entries@[k]).node != a,
        decreases entries@.len() - i,
    {
        if entries[i].node == a {
            return Some(i);
        }
        i = i + 1;
    }
    None
}

/// The position of `b` in `links`, if it is there.
fn find_link(links: &Vec<Handle>, b: Handle) -> (r: Option<usize>)
    ensures
        match r {
            Some(p) => p < links@.len() && links@[p as int] == b,
            None => !links@.contains(b),
        },
{
    let mut i: usize = 0;
    while i < links.len()
        invariant
            i <= links@.len(),
            forall|k: int| 0 <= k < i ==> links@[k] != b,
        decreases links@.len() - i,
    {
        if links[i] == b {
            return Some(i);
        }
        i = i + 1;
    }
    None
}

/// Links `a` to `b`; nothing changes when they are linked already.
fn add_link(entries: &mut Vec<Adjacency>, a: Handle, b: Handle)
    requires
        adjacency_wf(old(entries)@),
    ensures
        adjacency_wf(final(entries)@),
        forall|x: Handle, y: Handle|
            #[trigger] has_link(final(entries)@, x, y) <==> (has_link(old(entries)@, x, y) || (x == a && y == b)),
{
    match find_entry(entries, a) {
        Some(p) => {
            let ghost before = entries@;
            match find_link(&entries[p].links, b) {
                Some(q) => {
                    assert(entries@[p as int].links@[q as int] == b);
                },
                None => {
                    entries[p].links.push(b);
                    let ghost n = entries@[p as int].links@;
                    assert(n[n.len() - 1] == b);
                    assert(n.drop_last() =~= before[p as int].links@);
                },
            }
            assert(entries@[p as int].links@.contains(b));
            assert forall|i: int| 0 <= i < entries@.len() implies #[trigger] entries@[i].node == before[i].node by {}
            assert forall|x: Handle, y: Handle|
                #[trigger] has_link(entries@, x, y) <==> (has_link(before, x, y) || (x == a && y == b)) by {
                if x == a {
                    lemma_link_at(entries@, p as int, x, y);
                    lemma_link_at(before, p as int, x, y);
                } else {
                    if has_link(entries@, x, y) {
                        let i = choose|i: int| 0 <= i < entries@.len() && #[trigger] entries@[i].node == x && entries@[i].links@.contains(y);
                        assert(before[i].node == x);
                    }
                    if has_link(before, x, y) {
                        let i = choose|i: int| 0 <= i < before.len() && #[trigger] before[i].node == x && before[i].links@.contains(y);
                        assert(entries@[i].node == x);
                    }
                }
            }
        },
        None => {
            let ghost before = entries@;
            let mut links: Vec<Handle> = Vec::new();
            links.push(b);
            entries.push(Adjacency { node: a, links });
            let ghost last = before.len() as int;
            assert(entries@[last].links@ =~= seq![b]);
            assert forall|x: Handle, y: Handle|
                #[trigger] has_link(entries@, x, y) <==> (has_link(before, x, y) || (x == a && y == b)) by {
                if has_link(entries@, x, y) {
                    let i = choose|i: int| 0 <= i < entries@.len() && #[trigger] entries@[i].node == x && entries@[i].links@.contains(y);
                    if i < last {
                        assert(before[i].node == x);
                        assert(before[i].links@.contains(y));
                    } else {
                        let k = choose|k: int| 0 <= k < entries@[last].links@.len() && entries@[last].links@[k] == y;
                        assert(k == 0);
                    }
                }
                if has_link(before, x, y) {
                    let i = choose|i: int| 0 <= i < before.len() && #[trigger] before[i].node == x && before[i].links@.contains(y);
                    assert(entries@[i].node == x);
                }
                if x == a && y == b {
                    assert(entries@[last].node == a);
                    assert(entries@[last].links@[0] == b);
                }
            }
        },
    }
}

/// Unlinks `a` from `b`; nothing changes when they are not linked.
fn remove_link(entries: &mut Vec<Adjacency>, a: Handle, b: Handle)
    requires
        adjacency_wf(old(entries)@),
    ensures
        adjacency_wf(final(entries)@),
        forall|x: Handle, y: Handle|
            #[trigger] has_link(final(entries)@, x, y) <==> (has_link(old(entries)@, x, y) && !(x == a && y == b)),
{
    if let Some(p) = find_entry(entries, a) {
        if let Some(q) = find_link(&entries[p].links, b) {
            let ghost before = entries@;
            let ghost old_links = entries@[p as int].links@;
            entries[p].links.swap_remove(q);
            let ghost new_links = entries@[p as int].links@;
            assert(new_links =~= old_links.update(q as int, old_links.last()).drop_last());
            assert(forall|y: Handle| new_links.contains(y) <==> (old_links.contains(y) && y != b)) by {
                assert forall|y: Handle| new_links.contains(y) implies (old_links.contains(y) && y != b) by {
                    let k = choose|k: int| 0 <= k < new_links.len() && new_links[k] == y;
                    if k == q {
                        assert(old_links[old_links.len() - 1] == y);
                    } else {
                        assert(old_links[k] == y);
                    }
                }
                assert forall|y: Handle| (old_links.contains(y) && y != b) implies new_links.contains(y) by {
                    let k = choose|k: int| 0 <= k < old_links.len() && old_links[k] == y;
                    if k == old_links.len() - 1 {
                        assert(new_links[q as int] == y);
                    } else {
                        assert(new_links[k] == y);
                    }
                }
            }
            assert(new_links.no_duplicates()) by {
                assert forall|i: int, j: int| 0 <= i < new_links.len() && 0 <= j < new_links.len() && i != j
                    implies new_links[i] != new_links[j] by {
                    let last = old_links.len() - 1;
                    let oi = if i == q { last } else { i };
                    let oj = if j == q { last } else { j };
                    assert(new_links[i] == old_links[oi]);
                    assert(new_links[j] == old_links[oj]);
                }
            }
            assert forall|i: int| 0 <= i < entries@.len() implies #[trigger] entries@[i].node == before[i].node by {}
            assert forall|x: Handle, y: Handle|
                #[trigger] has_link(entries@, x, y) <==> (has_link(before, x, y) && !(x == a && y == b)) by {
                if x == a {
                    lemma_link_at(entries@, p as int, x, y);
                    lemma_link_at(before, p as int, x, y);
                } else {
                    if has_link(entries@, x, y) {
                        let i = choose|i: int| 0 <= i < entries@.len() && #[trigger] entries@[i].node == x && entries@[i].links@.contains(y);
                        assert(before[i].node == x);
                    }
                    if has_link(before, x, y) {
                        let i = choose|i: int| 0 <= i < before.len() && #[trigger] before[i].node == x && before[i].links@.contains(y);
                        assert(entries@[i].node == x);
                    }
                }
            }
        } else {
            assert forall|y: Handle| !(#[trigger] has_link(entries@, a, y) && y == b) by {
                lemma_link_at(entries@, p as int, a, y);
            }
        }
    } else {
        assert forall|y: Handle| !#[trigger] has_link(entries@, a, y) by {
            lemma_no_entry(entries@, a, y);
        }
    }
}

/// A copy of `links`, element by element.
fn copy_links(links: &Vec<Handle>) -> (r: Vec<Handle>)
    ensures
        r@ == links@,
{
    let mut r: Vec<Handle> = Vec::new();
    let mut i: usize = 0;
    while i < links.len()
        invariant
            i <= links@.len(),
            r@ == links@.subrange(0, i as int),
        decreases links@.len() - i,
    {
        r.push(links[i]);
        i = i + 1;
        assert(r@ =~= links@.subrange(0, i as int));
    }
    assert(r@ =~= links@);
    r
}

/// The neighbours of `a` in `entries`, each once.
fn links_of(entries: &Vec<Adjacency>, a: Handle) -> (r: Vec<Handle>)
    requires
        adjacency_wf(entries@),
    ensures
        r@.no_duplicates(),
        r@ == links_seq(entries@, a),
        forall|y: Handle| #[trigger] r@.contains(y) <==> has_link(entries@, a, y),
{
    match find_entry(entries, a) {
        Some(p) => {
            let ghost i = choose|i: int| 0 <= i < entries@.len() && #[trigger] entries@[i].node == a;
            assert(entries@[i].node == entries@[p as int].node);
            assert forall|y: Handle| #[trigger] entries@[p as int].links@.contains(y) <==> has_link(entries@, a, y) by {
                lemma_link_at(entries@, p as int, a, y);
            }
            copy_links(&entries[p].links)
        },
        None => {
            assert forall|y: Handle| !#[trigger] has_link(entries@, a, y) by {
                lemma_no_entry(entries@, a, y);
            }
            let r: Vec<Handle> = Vec::new();
            assert(r@ =~= Seq::<Handle>::empty());
            r
        },
    }
}

/// The edges of one relation category, kept twice: by source in `outgoing`
/// and by target in `incoming`.
///
/// Both maps always describe the same edge set, and neither lists a
/// neighbour twice.
#[derive(Debug)]
pub struct RelationsTable {
    outgoing: Vec<Adjacency>,
    incoming: Vec<Adjacency>,
}

impl RelationsTable {
    /// Both maps are well formed and describe the same edges.
    pub closed spec fn wf(&self) -> bool {
        &&& adjacency_wf(self.outgoing@)
        &&& adjacency_wf(self.incoming@)
        &&& forall|a: Handle, b: Handle|
            #[trigger] has_link(self.outgoing@, a, b) <==> has_link(self.incoming@, b, a)
    }

    /// The targets of the edges from `a`, in the order they are kept.
    pub closed spec fn out_seq(&self, a: Handle) -> Seq<Handle> {
        links_seq(self.outgoing@, a)
    }

    /// Whether the table holds the edge from `a` to `b`.
    pub closed spec fn has_edge(&self, a: Handle, b: Handle) -> bool {
        has_link(self.outgoing@, a, b)
    }

    /// An empty table.
    pub fn new() -> (r: RelationsTable)
        ensures
            r.wf(),
            forall|a: Handle, b: Handle| !#[trigger] r.has_edge(a, b),
    {
        RelationsTable { outgoing: Vec::new(), incoming: Vec::new() }
    }

    /// Adds the edge from `from` to `to`. Adding it again changes nothing.
    pub fn insert(&mut self, from: Handle, to: Handle)
        requires
            old(self).wf(),
        ensures
            final(self).wf(),
            forall|a: Handle, b: Handle|
                #[trigger] final(self).has_edge(a, b) <==> (old(self).has_edge(a, b) || (a == from && b == to)),
    {
        add_link(&mut self.outgoing, from, to);
        add_link(&mut self.incoming, to, from);
    }

    /// Removes the edge from `from` to `to` from both maps. Removing an
    /// absent edge changes nothing.
    pub fn remove(&mut self, from: Handle, to: Handle)
        requires
            old(self).wf(),
        ensures
            final(self).wf(),
            forall|a: Handle, b: Handle|
                #[trigger] final(self).has_edge(a, b) <==> (old(self).has_edge(a, b) && !(a == from && b == to)),
    {
        remove_link(&mut self.outgoing, from, to);
        remove_link(&mut self.incoming, to, from);
    }

    /// Removes every edge that starts at `from`, from both maps.
    pub fn remove_all(&mut self, from: Handle)
        requires
            old(self).wf(),
        ensures
            final(self).wf(),
            forall|a: Handle, b: Handle|
                #[trigger] final(self).has_edge(a, b) <==> (old(self).has_edge(a, b) && a != from),
    {
        let targets = links_of(&self.outgoing, from);
        let mut i: usize = 0;
        while i < targets.len()
            invariant
                self.wf(),
                i <= targets@.len(),
                forall|y: Handle| #[trigger] targets@.contains(y) <==> old(self).has_edge(from, y),
                forall|a: Handle, b: Handle|
                    #[trigger] self.has_edge(a, b) <==> (old(self).has_edge(a, b) && !(a == from
                        && exists|k: int| 0 <= k < i && #[trigger] targets@[k] == b)),
            decreases targets@.len() - i,
        {
            let t = targets[i];
            self.remove(from, t);
            i = i + 1;
        }
        assert forall|a: Handle, b: Handle| #[trigger] self.has_edge(a, b) <==> (old(self).has_edge(a, b) && a != from) by {
            if a == from && old(self).has_edge(a, b) {
                assert(targets@.contains(b));
                let k = choose|k: int| 0 <= k < targets@.len() && targets@[k] == b;
                assert(targets@[k] == b);
            }
        }
    }

    /// Removes every edge that ends at `to`, from both maps.
    pub fn remove_all_incoming(&mut self, to: Handle)
        requires
            old(self).wf(),
        ensures
            final(self).wf(),
            forall|a: Handle, b: Handle|
                #[trigger] final(self).has_edge(a, b) <==> (old(self).has_edge(a, b) && b != to),
    {
        let sources = links_of(&self.incoming, to);
        let mut i: usize = 0;
        while i < sources.len()
            invariant
                self.wf(),
                i <= sources@.len(),
                forall|x: Handle| #[trigger] sources@.contains(x) <==> old(self).has_edge(x, to),
                forall|a: Handle, b: Handle|
                    #[trigger] self.has_edge(a, b) <==> (old(self).has_edge(a, b) && !(b == to
                        && exists|k: int| 0 <= k < i && #[trigger] sources@[k] == a)),
            decreases sources@.len() - i,
        {
            let s = sources[i];
            self.remove(s, to);
            i = i + 1;
        }
        assert forall|a: Handle, b: Handle| #[trigger] self.has_edge(a, b) <==> (old(self).has_edge(a, b) && b != to) by {
            if b == to && old(self).has_edge(a, b) {
                assert(sources@.contains(a));
                let k = choose|k: int| 0 <= k < sources@.len() && sources@[k] == a;
                assert(sources@[k] == a);
            }
        }
    }

    /// Whether the edge from `from` to `to` is there.
    pub fn contains(&self, from: Handle, to: Handle) -> (r: bool)
        requires
            self.wf(),
        ensures
            r == self.has_edge(from, to),
    {
        match find_entry(&self.outgoing, from) {
            Some(p) => {
                proof {
                    lemma_link_at(self.outgoing@, p as int, from, to);
                }
                find_link(&self.outgoing[p].links, to).is_some()
            },
            None => {
                proof {
                    lemma_no_entry(self.outgoing@, from, to);
                }
                false
            },
        }
    }

    /// The targets of the edges that start at `from`, each once.
    pub fn outgoing(&self, from: Handle) -> (r: Vec<Handle>)
        requires
            self.wf(),
        ensures
            r@.no_duplicates(),
            r@ == self.out_seq(from),
            forall|b: Handle| #[trigger] r@.contains(b) <==> self.has_edge(from, b),
    {
        links_of(&self.outgoing, from)
    }

    /// The sources of the edges that end at `to`, each once.
    pub fn incoming(&self, to: Handle) -> (r: Vec<Handle>)
        requires
            self.wf(),
        ensures
            r@.no_duplicates(),
            forall|a: Handle| #[trigger] r@.contains(a) <==> self.has_edge(a, to),
    {
        links_of(&self.incoming, to)
    }

    /// Every edge of the table, as (source, target) pairs.
    pub fn iter(&self) -> (r: Vec<(Handle, Handle)>)
        requires
            self.wf(),
        ensures
            forall|a: Handle, b: Handle| #[trigger] r@.contains((a, b)) <==> self.has_edge(a, b),
    {
        let mut r: Vec<(Handle, Handle)> = Vec::new();
        let mut i: usize = 0;
        while i < self.outgoing.len()
            invariant
                self.wf(),
                i <= self.outgoing@.len(),
                forall|a: Handle, b: Handle| #[trigger] r@.contains((a, b)) <==> exists|k: int|
                    0 <= k < i && #[trigger] self.outgoing@[k].node == a && self.outgoing@[k].links@.contains(b),
            decreases self.outgoing@.len() - i,
        {
            let node = self.outgoing[i].node;
            let links = &self.outgoing[i].links;
            let mut j: usize = 0;
            let ghost r0 = r@;
            while j < links.len()
                invariant
                    j <= links@.len(),
                    links@ == self.outgoing@[i as int].links@,
                    node == self.outgoing@[i as int].node,
                    r@.len() == r0.len() + j,
                    forall|k: int| 0 <= k < r0.len() ==> r@[k] == r0[k],
                    forall|k: int| 0 <= k < j ==> r@[r0.len() + k] == (node, links@[k]),
                decreases links@.len() - j,
            {
                r.push((node, links[j]));
                j = j + 1;
            }
            assert forall|a: Handle, b: Handle| #[trigger] r@.contains((a, b)) <==> exists|k: int|
                0 <= k < i + 1 && #[trigger] self.outgoing@[k].node == a && self.outgoing@[k].links@.contains(b) by {
                if r@.contains((a, b)) {
                    let m = choose|m: int| 0 <= m < r@.len() && r@[m] == (a, b);
                    if m < r0.len() {
                        assert(r0[m] == (a, b));
                        assert(r0.contains((a, b)));
                    } else {
                        assert(links@[m - r0.len()] == b);
                        assert(self.outgoing@[i as int].links@.contains(b));
                    }
                }
                if exists|k: int| 0 <= k < i + 1 && #[trigger] self.outgoing@[k].node == a && self.outgoing@[k].links@.contains(b) {
                    let k = choose|k: int| 0 <= k < i + 1 && #[trigger] self.outgoing@[k].node == a && self.outgoing@[k].links@.contains(b);
                    if k < i {
                        assert(r0.contains((a, b)));
                        let m = choose|m: int| 0 <= m < r0.len() && r0[m] == (a, b);
                        assert(r@[m] == (a, b));
                    } else {
                        let q = choose|q: int| 0 <= q < links@.len() && links@[q] == b;
                        assert(r@[r0.len() + q] == (a, b));
                    }
                }
            }
            i = i + 1;
        }
        r
    }
}

} // verus!
