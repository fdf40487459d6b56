use relgraph::graph::{Graph, GraphError};
use relgraph::query::{Fetch, Is, IsNot, Limit, Node, Query, QueryIter, Related, Transform, Traverse, Value};
use relgraph::{Handle, TypeTag};

struct Parent;
struct Child;
struct Effect;
struct Attribute;
struct Player;
struct Tree;
struct Fire;

#[derive(Debug, Default)]
struct Controller {
    forward: bool,
}

#[derive(Debug, Default)]
struct Position(i32, i32);

#[derive(Debug, Default)]
struct Health(usize);

fn tag<T>() -> TypeTag {
    TypeTag::of::<T>()
}

fn collect(mut iter: QueryIter) -> Vec<Value> {
    let mut out = Vec::new();
    while let Some(value) = iter.next() {
        out.push(value);
    }
    out
}

fn related(category: TypeTag, transform: Transform) -> Fetch {
    Fetch::Related(Related { category, transform: Box::new(transform) })
}

fn pair(a: Fetch, b: Fetch) -> Fetch {
    Fetch::Pair(Box::new(a), Box::new(b))
}

#[test]
fn test_cycles() {
    let mut graph = Graph::default();
    let a = graph.insert(());
    let b = graph.insert(());
    let c = graph.insert(());
    let d = graph.insert(());

    graph.relate(tag::<()>(), a, b);
    graph.relate(tag::<()>(), a, c);
    graph.relate(tag::<()>(), b, d);
    graph.relate(tag::<()>(), c, d);
    assert!(graph.find_cycles(tag::<()>()).is_empty());

    graph.relate(tag::<()>(), d, a);
    assert!(!graph.find_cycles(tag::<()>()).is_empty());
}

#[test]
fn test_graph() {
    let mut graph = Graph::default();
    let root = graph.insert(());
    let fire = graph.insert(Fire);

    let player = graph.insert(Player);
    graph.relate_pair(tag::<Parent>(), tag::<Child>(), root, player);

    let name = graph.insert("Player".to_owned());
    graph.relate(tag::<Attribute>(), player, name);

    let controller = graph.insert(Controller { forward: true });
    graph.relate_pair(tag::<Parent>(), tag::<Child>(), player, controller);

    let name = graph.insert("Player controller".to_owned());
    graph.relate(tag::<Attribute>(), controller, name);

    let position = graph.insert(Position(0, 0));
    graph.relate_pair(tag::<Parent>(), tag::<Child>(), player, position);

    let mut trees = Vec::new();
    let mut healths = Vec::new();
    for index in 0..5 {
        let tree = graph.insert(Tree);
        graph.relate_pair(tag::<Parent>(), tag::<Child>(), root, tree);

        let name = graph.insert(format!("Tree {index}"));
        graph.relate(tag::<Attribute>(), player, name);

        let health = graph.insert(Health(2));
        graph.relate_pair(tag::<Parent>(), tag::<Child>(), tree, health);

        if index % 2 == 0 {
            graph.relate(tag::<Effect>(), tree, fire);
        }
        trees.push(tree);
        healths.push(health);
    }

    let fetch = pair(
        related(tag::<Child>(), Transform::Read(tag::<Controller>())),
        related(tag::<Child>(), Transform::Write(tag::<Position>())),
    );
    let moves = collect(graph.query(player, &fetch));
    assert_eq!(moves.len(), 1);
    for value in moves {
        let Value::Pair(controller, position) = value else { panic!("not a pair") };
        let (Value::Read(controller), Value::Write(position)) = (*controller, *position) else { panic!("not an accessor") };
        if graph.read::<Controller>(controller).unwrap().forward {
            let mut position = graph.write::<Position>(position).unwrap();
            position.0 += 1;
            position.1 += 2;
        }
    }
    let moved = graph.read::<Position>(position).unwrap();
    assert_eq!((moved.0, moved.1), (1, 2));
    drop(moved);

    let burning = pair(
        Fetch::Index,
        pair(
            related(tag::<Child>(), Transform::Write(tag::<Health>())),
            related(tag::<Effect>(), Transform::Is(Is { ty: tag::<Fire>() })),
        ),
    );
    let fetch = related(
        tag::<Child>(),
        Transform::Query(Query {
            transform: Box::new(Transform::Node(Node { ty: tag::<Tree>() })),
            fetch: Box::new(burning),
        }),
    );
    let burnt = collect(graph.query(root, &fetch));
    assert_eq!(burnt.len(), 3);
    for value in burnt {
        let Value::Pair(_, rest) = value else { panic!("not a pair") };
        let Value::Pair(health, _) = *rest else { panic!("not a pair") };
        let Value::Write(health) = *health else { panic!("not an accessor") };
        let mut health = graph.write::<Health>(health).unwrap();
        health.0 = health.0.saturating_sub(1);
    }
    let left: Vec<usize> = healths.iter().map(|h| graph.read::<Health>(*h).unwrap().0).collect();
    assert_eq!(left, vec![1, 2, 1, 2, 1]);

    let fetch = Fetch::Traverse(Traverse {
        category: tag::<Child>(),
        transform: Box::new(Transform::Query(Query {
            transform: Box::new(Transform::Index),
            fetch: Box::new(related(tag::<Attribute>(), Transform::Read(tag::<String>()))),
        })),
    });
    let names: Vec<String> = collect(graph.query(root, &fetch))
        .into_iter()
        .map(|value| match value {
            Value::Read(h) => graph.read::<String>(h).unwrap().clone(),
            _ => panic!("not an accessor"),
        })
        .collect();
    assert_eq!(names.len(), 7);
    assert!(names.contains(&"Player".to_owned()));
    assert!(names.contains(&"Player controller".to_owned()));
    assert!(names.contains(&"Tree 4".to_owned()));

    graph.clear();
    assert!(!graph.contains(root));
    assert!(graph.indices().is_empty());
}

#[test]
fn fire_scenario_yields_trees_zero_two_four() {
    let mut graph = Graph::new();
    let root = graph.insert(());
    let player = graph.insert(Player);
    let fire = graph.insert(Fire);
    graph.relate_pair(tag::<Parent>(), tag::<Child>(), root, player);
    let mut trees = Vec::new();
    for _ in 0..5 {
        let tree = graph.insert(Tree);
        graph.relate_pair(tag::<Parent>(), tag::<Child>(), root, tree);
        trees.push(tree);
    }
    graph.relate(tag::<Effect>(), trees[0], fire);
    graph.relate(tag::<Effect>(), trees[2], fire);
    graph.relate(tag::<Effect>(), trees[4], fire);

    let fetch = related(
        tag::<Child>(),
        Transform::Query(Query {
            transform: Box::new(Transform::Node(Node { ty: tag::<Tree>() })),
            fetch: Box::new(pair(Fetch::Index, related(tag::<Effect>(), Transform::Is(Is { ty: tag::<Fire>() })))),
        }),
    );
    let mut found: Vec<Handle> = collect(graph.query(root, &fetch))
        .into_iter()
        .map(|value| match value {
            Value::Pair(index, marker) => match (*index, *marker) {
                (Value::Index(h), Value::Unit) => h,
                _ => panic!("unexpected values"),
            },
            _ => panic!("not a pair"),
        })
        .collect();
    found.sort();
    let mut expected = vec![trees[0], trees[2], trees[4]];
    expected.sort();
    assert_eq!(found, expected);
}

#[test]
fn relate_and_unrelate_follow_the_last_call() {
    let mut graph = Graph::new();
    let a = graph.insert(1u32);
    let b = graph.insert(2u32);
    assert!(!graph.are_related(tag::<Parent>(), a, b));
    graph.relate(tag::<Parent>(), a, b);
    graph.relate(tag::<Parent>(), a, b);
    assert!(graph.are_related(tag::<Parent>(), a, b));
    assert!(!graph.are_related(tag::<Child>(), a, b));
    assert!(!graph.are_related(tag::<Parent>(), b, a));
    graph.unrelate(tag::<Parent>(), a, b);
    assert!(!graph.are_related(tag::<Parent>(), a, b));
    assert!(graph.relations_incomming(b, tag::<Parent>()).is_empty());
    graph.unrelate(tag::<Parent>(), a, b);
    assert!(!graph.are_related(tag::<Parent>(), a, b));
    graph.relate(tag::<Parent>(), a, b);
    assert!(graph.are_related(tag::<Parent>(), a, b));
    assert_eq!(graph.relations_incomming(b, tag::<Parent>()), vec![a]);
}

#[test]
fn pair_relations_go_both_ways() {
    let mut graph = Graph::new();
    let a = graph.insert(1u8);
    let b = graph.insert(2u8);
    graph.relate_pair(tag::<Parent>(), tag::<Child>(), a, b);
    assert!(graph.are_related(tag::<Child>(), a, b));
    assert!(graph.are_related(tag::<Parent>(), b, a));
    graph.unrelate_pair(tag::<Parent>(), tag::<Child>(), a, b);
    assert!(!graph.are_related(tag::<Child>(), a, b));
    assert!(!graph.are_related(tag::<Parent>(), b, a));
}

#[test]
fn unrelate_all_drops_outgoing_edges_only() {
    let mut graph = Graph::new();
    let a = graph.insert(1u8);
    let b = graph.insert(2u8);
    let c = graph.insert(3u8);
    graph.relate(tag::<Parent>(), a, b);
    graph.relate(tag::<Parent>(), a, c);
    graph.relate(tag::<Parent>(), b, a);
    graph.unrelate_all(tag::<Parent>(), a);
    assert!(graph.relations_outgoing(a, tag::<Parent>()).is_empty());
    assert!(graph.relations_incomming(b, tag::<Parent>()).is_empty());
    assert!(graph.are_related(tag::<Parent>(), b, a));
}

#[test]
fn remove_purges_every_category() {
    let mut graph = Graph::new();
    let a = graph.insert(1u8);
    let h = graph.insert(2u8);
    let c = graph.insert(3u8);
    graph.relate(tag::<Parent>(), a, h);
    graph.relate(tag::<Child>(), h, c);
    graph.relate(tag::<Effect>(), c, h);
    graph.relate(tag::<Effect>(), a, c);
    assert_eq!(graph.remove(h), Ok(()));
    assert!(!graph.contains(h));
    assert!(graph.relations_outgoing_any(h).is_empty());
    assert!(graph.relations_incomming_any(h).is_empty());
    assert!(graph.relations_outgoing_any(a).iter().all(|x| *x != h));
    assert!(graph.relations_outgoing_any(c).is_empty());
    assert!(graph.are_related(tag::<Effect>(), a, c));
    assert_eq!(graph.remove(h), Err(GraphError::EntityNotFound));
}

#[test]
fn read_reports_each_error() {
    let mut graph = Graph::new();
    let a = graph.insert(5u32);
    assert!(graph.is(a, tag::<u32>()));
    assert!(!graph.is(a, tag::<u64>()));
    assert_eq!(graph.read::<u64>(a).err(), Some(GraphError::TypeMismatch));
    let held = graph.write::<u32>(a).unwrap();
    assert_eq!(graph.read::<u32>(a).err(), Some(GraphError::AccessDenied));
    drop(held);
    assert_eq!(*graph.read::<u32>(a).unwrap(), 5);
    graph.remove(a).unwrap();
    assert_eq!(graph.read::<u32>(a).err(), Some(GraphError::EntityNotFound));
    assert!(graph.write::<u32>(a).is_err());
}

#[test]
fn traverse_visits_each_reachable_once_start_first() {
    let mut graph = Graph::new();
    let a = graph.insert(0u8);
    let b = graph.insert(1u8);
    let c = graph.insert(2u8);
    let d = graph.insert(3u8);
    let lone = graph.insert(4u8);
    graph.relate(tag::<Child>(), a, b);
    graph.relate(tag::<Child>(), b, c);
    graph.relate(tag::<Child>(), c, a);
    graph.relate(tag::<Child>(), a, c);
    graph.relate(tag::<Effect>(), c, d);
    let order = graph.relations_traverse(a, tag::<Child>());
    assert_eq!(order.len(), 3);
    assert_eq!(order[0], a);
    assert!(order.contains(&b) && order.contains(&c));
    let any = graph.relations_traverse_any(a);
    assert_eq!(any.len(), 4);
    assert_eq!(any[0], a);
    assert_eq!(*any.last().unwrap(), d);
    assert_eq!(graph.relations_traverse(lone, tag::<Child>()), vec![lone]);
}

#[test]
fn find_cycle_returns_the_loop_without_its_prefix() {
    let mut graph = Graph::new();
    let a = graph.insert(0u8);
    let b = graph.insert(1u8);
    let c = graph.insert(2u8);
    let d = graph.insert(3u8);
    graph.relate(tag::<()>(), a, b);
    graph.relate(tag::<()>(), a, c);
    graph.relate(tag::<()>(), b, d);
    graph.relate(tag::<()>(), c, d);
    assert!(graph.find_cycle(tag::<()>(), a).is_empty());
    graph.relate(tag::<()>(), d, a);
    let cycle = graph.find_cycle(tag::<()>(), a);
    assert_eq!(cycle.len(), 3);
    assert_eq!(cycle[0], a);
    assert!(cycle.contains(&d));
    assert!(cycle.contains(&b) || cycle.contains(&c));
    let cycles = graph.find_cycles(tag::<()>());
    assert_eq!(cycles.len(), 4);
    for cycle in cycles {
        assert!(cycle.contains(&d));
        assert!(cycle.contains(&a) || cycle.contains(&b) || cycle.contains(&c));
    }

    let mut graph = Graph::new();
    let s = graph.insert(0u8);
    let x = graph.insert(1u8);
    let y = graph.insert(2u8);
    graph.relate(tag::<()>(), s, x);
    graph.relate(tag::<()>(), x, y);
    graph.relate(tag::<()>(), y, x);
    assert_eq!(graph.find_cycle(tag::<()>(), s), vec![x, y]);
    let cycles = graph.find_cycles(tag::<()>());
    assert_eq!(cycles.len(), 3);
}

#[test]
fn pair_fetch_zips_to_the_shorter() {
    let mut graph = Graph::new();
    let root = graph.insert(());
    let mut kids = Vec::new();
    for i in 0..3u8 {
        let kid = graph.insert(i);
        graph.relate(tag::<Child>(), root, kid);
        kids.push(kid);
    }
    let effect = graph.insert(9u16);
    graph.relate(tag::<Effect>(), root, effect);
    let fetch = pair(related(tag::<Child>(), Transform::Index), related(tag::<Effect>(), Transform::Index));
    let out = collect(graph.query(root, &fetch));
    assert_eq!(out.len(), 1);
    let first_kid = graph.relations_outgoing(root, tag::<Child>())[0];
    assert_eq!(out[0], Value::Pair(Box::new(Value::Index(first_kid)), Box::new(Value::Index(effect))));
    let both = pair(related(tag::<Child>(), Transform::Index), related(tag::<Child>(), Transform::Index));
    assert_eq!(collect(graph.query(root, &both)).len(), 3);
    assert_eq!(collect(graph.query(root, &pair(Fetch::Unit, Fetch::Index))).len(), 1);
}

#[test]
fn limit_caps_outputs() {
    let mut graph = Graph::new();
    let root = graph.insert(());
    for i in 0..4u8 {
        let kid = graph.insert(i);
        graph.relate(tag::<Child>(), root, kid);
    }
    let all = Transform::Query(Query {
        transform: Box::new(Transform::Index),
        fetch: Box::new(related(tag::<Child>(), Transform::Index)),
    });
    assert_eq!(all.transform(&graph, root).len(), 4);
    let two = Transform::Limit(Limit { count: 2, transform: Box::new(all) });
    let out = two.transform(&graph, root);
    assert_eq!(out.len(), 2);
    assert_eq!(out[0], Value::Index(graph.relations_outgoing(root, tag::<Child>())[0]));
    let ten = Transform::Limit(Limit { count: 10, transform: Box::new(Transform::Index) });
    assert_eq!(ten.transform(&graph, root), vec![Value::Index(root)]);
}

#[test]
fn transforms_filter_by_type() {
    let mut graph = Graph::new();
    let n = graph.insert(1u32);
    assert_eq!(Transform::Node(Node { ty: tag::<u32>() }).transform(&graph, n), vec![Value::Index(n)]);
    assert!(Transform::Node(Node { ty: tag::<u8>() }).transform(&graph, n).is_empty());
    assert_eq!(Transform::Is(Is { ty: tag::<u32>() }).transform(&graph, n), vec![Value::Unit]);
    assert!(Transform::IsNot(IsNot { ty: tag::<u32>() }).transform(&graph, n).is_empty());
    assert_eq!(Transform::IsNot(IsNot { ty: tag::<u8>() }).transform(&graph, n), vec![Value::Unit]);
    assert_eq!(Transform::MaybeRead(tag::<u8>()).transform(&graph, n), vec![Value::MaybeRead(None)]);
    assert_eq!(Transform::MaybeWrite(tag::<u32>()).transform(&graph, n), vec![Value::MaybeWrite(Some(n))]);
    assert_eq!(Fetch::Index.fetch(&graph, n), vec![Value::Index(n)]);
    assert_eq!(Fetch::Unit.fetch(&graph, n), vec![Value::Unit]);
}

#[test]
fn find_and_relations_list_edges() {
    let mut graph = Graph::new();
    let root = graph.insert(());
    let a = graph.insert(1u8);
    let b = graph.insert(2u16);
    graph.relate(tag::<Child>(), root, a);
    graph.relate(tag::<Child>(), root, b);
    graph.relate(tag::<Effect>(), a, b);
    assert_eq!(graph.find(root, tag::<Child>(), tag::<u16>()), vec![b]);
    let all = graph.relations();
    assert_eq!(all.len(), 3);
    assert!(all.contains(&(tag::<Effect>(), a, b)));
    let mut any = graph.relations_incomming_any(b);
    any.sort();
    let mut expected = vec![root, a];
    expected.sort();
    assert_eq!(any, expected);
    assert_eq!(graph.indices().len(), 3);
}

#[test]
fn iter_visits_values_of_one_type() {
    let mut graph = Graph::new();
    let a = graph.insert(Health(3));
    let b = graph.insert(Health(4));
    graph.insert(7u8);
    for (_, mut health) in graph.iter_mut::<Health>() {
        health.0 += 1;
    }
    let mut seen: Vec<(Handle, usize)> = graph.iter::<Health>().into_iter().map(|(h, v)| (h, v.0)).collect();
    seen.sort();
    let mut expected = vec![(a, 4), (b, 5)];
    expected.sort();
    assert_eq!(seen, expected);
    assert!(graph.iter::<u64>().is_empty());
}
