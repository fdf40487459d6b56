use crate::graph::Graph;
use crate::handle::{Handle, TypeTag};
use vstd::prelude::*;

verus! {

/// A type as a registry names it.
#[derive(Clone, Debug, PartialEq)]
pub struct PrefabDataType {
    pub name: String,
    pub module_name: Option<String>,
}

/// Why taking or restoring a snapshot failed.
#[derive(Clone, Debug, PartialEq)]
pub enum PrefabError {
    /// The registry knows no type with this hash.
    CouldNotFindType(u64),
    /// No serializer, or the serializer failed, for a value of this type.
    CouldNotSerializeType { name: String, module_name: Option<String> },
    /// The registry knows no such type, or the deserializer failed.
    CouldNotDeserializeType { name: String, module_name: Option<String> },
    /// An edge names a value that the snapshot does not hold.
    DanglingReference { type_hash: u64, index: u64 },
    /// Another failure, as text.
    Custom(String),
}

/// What `mapping` maps `old` to: the new handle of its first entry for
/// `old`, if it has one.
pub open spec fn mapped(mapping: Seq<(Handle, Handle)>, old: Handle) -> Option<Handle>
    decreases mapping.len(),
{
    if mapping.len() == 0 {
        None
    } else if mapping[0].0 == old {
        Some(mapping[0].1)
    } else {
        mapped(mapping.drop_first(), old)
    }
}

/// Whether `h` maps to a value that `g` holds.
pub open spec fn maps_into(g: &Graph, mapping: Seq<(Handle, Handle)>, h: Handle) -> bool {
    match mapped(mapping, h) {
        Some(n) => g.nodes().contains(n),
        None => false,
    }
}

/// What `mapping` maps `old` to.
pub fn map_handle(mapping: &Vec<(Handle, Handle)>, old: Handle) -> (r: Option<Handle>)
    ensures
        r == mapped(mapping@, old),
{
    let mut i: usize = 0;
    assert(mapping@.subrange(0, mapping@.len() as int) =~= mapping@);
    while i < mapping.len()
        invariant
            i <= mapping@.len(),
            mapped(mapping@, old) == mapped(mapping@.subrange(i as int, mapping@.len() as int), old),
        decreases mapping@.len() - i,
    {
        proof {
            let rest = mapping@.subrange(i as int, mapping@.len() as int);
            assert(rest.drop_first() =~= mapping@.subrange(i + 1, mapping@.len() as int));
            assert(rest[0] == mapping@[i as int]);
        }
        if mapping[i].0 == old {
            return Some(mapping[i].1);
        }
        i = i + 1;
    }
    assert(mapping@.subrange(i as int, mapping@.len() as int) =~= Seq::<(Handle, Handle)>::empty());
    None
}

/// Rebuilds the edges of a snapshot in `graph`: each edge `(category, source,
/// target)` names its values by their handles at the time of the snapshot,
/// and `mapping` takes those to the handles of the restored values.
///
/// Fails with `DanglingReference`, naming the first such handle, when an
/// edge names a handle that `mapping` does not map to a value of `graph`.
pub fn restore_relations(graph: &mut Graph, edges: &Vec<(TypeTag, Handle, Handle)>, mapping: &Vec<(Handle, Handle)>)
    -> (r: Result<(), PrefabError>)
    requires
        old(graph).wf(),
    ensures
        final(graph).wf(),
        final(graph).nodes() == old(graph).nodes(),
        r is Ok <==> forall|k: int| 0 <= k < edges@.len() ==> maps_into(old(graph), mapping@, (#[trigger] edges@[k]).1)
            && maps_into(old(graph), mapping@, edges@[k].2),
        r is Err ==> exists|k: int| 0 <= k < edges@.len() && (r == Err::<(), PrefabError>(PrefabError::DanglingReference {
            type_hash: (#[trigger] edges@[k]).1.type_hash,
            index: edges@[k].1.index,
        }) || r == Err::<(), PrefabError>(PrefabError::DanglingReference {
            type_hash: edges@[k].2.type_hash,
            index: edges@[k].2.index,
        })),
        r is Ok ==> forall|c: u64, a: Handle, b: Handle| #[trigger] final(graph).related(c, a, b) <==> (old(graph).related(c, a, b)
            || exists|k: int| 0 <= k < edges@.len() && (#[trigger] edges@[k]).0@ == c && mapped(mapping@, edges@[k].1)
                == Some(a) && mapped(mapping@, edges@[k].2) == Some(b)),
{
    let mut i: usize = 0;
    while i < edges.len()
        invariant
            graph.wf(),
            graph.nodes() == old(graph).nodes(),
            i <= edges@.len(),
            forall|k: int| 0 <= k < i ==> maps_into(old(graph), mapping@, (#[trigger] edges@[k]).1) && maps_into(
                old(graph),
                mapping@,
                edges@[k].2,
            ),
            forall|c: u64, a: Handle, b: Handle| #[trigger] graph.related(c, a, b) <==> (old(graph).related(c, a, b)
                || exists|k: int| 0 <= k < i && (#[trigger] edges@[k]).0@ == c && mapped(mapping@, edges@[k].1) == Some(a)
                    && mapped(mapping@, edges@[k].2) == Some(b)),
        decreases edges@.len() - i,
    {
        let (category, source, target) = edges[i];
        let from = match map_handle(mapping, source) {
            Some(h) => {
                if !graph.contains(h) {
                    return Err(PrefabError::DanglingReference { type_hash: source.type_hash, index: source.index });
                }
                h
            },
            None => {
                return Err(PrefabError::DanglingReference { type_hash: source.type_hash, index: source.index });
            },
        };
        let to = match map_handle(mapping, target) {
            Some(h) => {
                if !graph.contains(h) {
                    return Err(PrefabError::DanglingReference { type_hash: target.type_hash, index: target.index });
                }
                h
            },
            None => {
                return Err(PrefabError::DanglingReference { type_hash: target.type_hash, index: target.index });
            },
        };
        let ghost before = *graph;
        graph.relate(category, from, to);
        proof {
            assert forall|c: u64, a: Handle, b: Handle| #[trigger] graph.related(c, a, b) <==> (old(graph).related(c, a, b)
                || exists|k: int| 0 <= k < i + 1 && (#[trigger] edges@[k]).0@ == c && mapped(mapping@, edges@[k].1) == Some(a)
                    && mapped(mapping@, edges@[k].2) == Some(b)) by {
                if c == category@ && a == from && b == to {
                    assert(edges@[i as int].0@ == c);
                }
                if exists|k: int| 0 <= k < i + 1 && (#[trigger] edges@[k]).0@ == c && mapped(mapping@, edges@[k].1) == Some(a)
                    && mapped(mapping@, edges@[k].2) == Some(b) {
                    let k = choose|k: int| 0 <= k < i + 1 && (#[trigger] edges@[k]).0@ == c && mapped(mapping@, edges@[k].1)
                        == Some(a) && mapped(mapping@, edges@[k].2) == Some(b);
                    if k == i {
                        assert(before.related(c, a, b) || (c == category@ && a == from && b == to));
                    } else {
                        assert(before.related(c, a, b));
                    }
                }
            }
        }
        i = i + 1;
    }
    Ok(())
}

} // verus!
