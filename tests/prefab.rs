use intuicio_data::type_hash::TypeHash;
use intuicio_framework_arena::AnyArena;
use relgraph::graph::Graph;
use relgraph::prefab::{map_handle, restore_relations, PrefabError};
use relgraph::{Handle, TypeTag};

struct Link;

#[test]
fn tags_read_the_type_hash() {
    let raw = TypeHash::of::<u32>();
    let tag = TypeTag::from_raw(raw);
    assert_eq!(tag.hash(), raw.hash());
    assert_eq!(tag, TypeTag::of::<u32>());
    assert_ne!(TypeTag::of::<u32>(), TypeTag::of::<u64>());
    assert_eq!(TypeTag::of::<u32>().raw(), raw);
}

#[test]
fn restore_maps_old_handles_to_new_ones() {
    let mut old = Graph::new();
    let a = old.insert(1u8);
    let b = old.insert(2u8);

    let mut arena = AnyArena::default();
    let x = arena.insert(10u16);
    let y = arena.insert(20u16);
    let mut graph = Graph::from_arena(arena);
    let nodes = graph.indices();
    assert_eq!(nodes.len(), 2);
    let new_x = Handle { index: x.index().to_u64(), type_hash: x.type_hash().hash() };
    let new_y = Handle { index: y.index().to_u64(), type_hash: y.type_hash().hash() };
    assert!(graph.contains(new_x) && graph.contains(new_y));
    assert_eq!(*graph.read::<u16>(new_y).unwrap(), 20);

    let mapping = vec![(a, new_x), (b, new_y)];
    assert_eq!(map_handle(&mapping, b), Some(new_y));
    assert_eq!(map_handle(&mapping, new_y), None);

    let link = TypeTag::of::<Link>();
    let edges = vec![(link, a, b), (link, b, a)];
    assert_eq!(restore_relations(&mut graph, &edges, &mapping), Ok(()));
    assert!(graph.are_related(link, new_x, new_y));
    assert!(graph.are_related(link, new_y, new_x));
    assert_eq!(graph.relations().len(), 2);
}

#[test]
fn restore_rejects_dangling_references() {
    let mut old = Graph::new();
    let a = old.insert(1u8);
    let b = old.insert(2u8);
    let mut graph = Graph::new();
    let x = graph.insert(10u8);
    let link = TypeTag::of::<Link>();
    let mapping = vec![(a, x)];
    let edges = vec![(link, a, b)];
    assert_eq!(
        restore_relations(&mut graph, &edges, &mapping),
        Err(PrefabError::DanglingReference { type_hash: b.type_hash, index: b.index })
    );
    let gone = Handle { index: 77, type_hash: x.type_hash };
    let mapping = vec![(a, x), (b, gone)];
    assert_eq!(
        restore_relations(&mut graph, &edges, &mapping),
        Err(PrefabError::DanglingReference { type_hash: b.type_hash, index: b.index })
    );
}
