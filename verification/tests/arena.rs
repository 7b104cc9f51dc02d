use transit_radar::arena::{Arena, ArenaIndex, SliceBound};

#[allow(dead_code)]
#[derive(Debug)]
struct Node {
    parent: Option<ArenaIndex<Node>>,
    left: Option<ArenaIndex<Node>>,
    right: Option<ArenaIndex<Node>>,
}

impl Node {
    fn new_child_of(parent: ArenaIndex<Node>) -> Node {
        Node { parent: Some(parent), right: None, left: None }
    }
}

struct Tree {
    arena: Arena<Node>,
    root: ArenaIndex<Node>,
}

#[test]
fn test_tree() {
    let mut arena: Arena<Node> = Arena::new();
    let root = arena.allocate(Node { parent: None, left: None, right: None });
    let mut tree = Tree { arena, root };
    let first_right = tree.arena.allocate(Node::new_child_of(tree.root));
    tree.arena.get_mut(tree.root).right = Some(first_right);
    assert_eq!(tree.arena[tree.root].right, Some(first_right));
    assert_eq!(tree.arena.len(), 2);
}

#[derive(PartialEq, Debug, Clone)]
struct Stop(u32);

#[test]
fn test_trip() {
    let mut arena: Arena<Stop> = Arena::new();
    let stops_vec = vec![Stop(1), Stop(2), Stop(3), Stop(4), Stop(5)];
    arena.allocate(Stop(0));
    let slice_ref = arena.alloc_extend(stops_vec.clone());
    arena.allocate(Stop(0));
    assert_eq!(7, arena.len());
    assert_eq!([Stop(1), Stop(2), Stop(3), Stop(4), Stop(5)], arena.get_slice(slice_ref));
    let subref = slice_ref.sub(SliceBound::Unbounded, SliceBound::Unbounded);
    assert_eq!([Stop(1), Stop(2), Stop(3), Stop(4), Stop(5)], arena.get_slice(subref));
    let subref = slice_ref.sub(SliceBound::Included(1), SliceBound::Excluded(3));
    assert_eq!([Stop(2), Stop(3)], arena.get_slice(subref));
    let subref = slice_ref.sub(SliceBound::Included(1), SliceBound::Included(3));
    assert_eq!([Stop(2), Stop(3), Stop(4)], arena.get_slice(subref));
    let subref = slice_ref.sub(SliceBound::Included(2), SliceBound::Unbounded);
    assert_eq!([Stop(3), Stop(4), Stop(5)], arena.get_slice(subref));
    let subref = slice_ref.sub(SliceBound::Unbounded, SliceBound::Excluded(2));
    assert_eq!([Stop(1), Stop(2)], arena.get_slice(subref));
}

#[test]
fn test_alloc_extend_result_ok() {
    let mut arena: Arena<Stop> = Arena::new();
    let stops_vec: Vec<Result<Stop, i64>> = vec![Ok(Stop(1)), Ok(Stop(2)), Ok(Stop(3)), Ok(Stop(4)), Ok(Stop(5))];
    let slice_ref = arena.alloc_extend_result(stops_vec.clone()).unwrap();
    assert_eq!([Stop(1), Stop(2), Stop(3), Stop(4), Stop(5)], arena.get_slice(slice_ref));
    assert_eq!(5, arena.len());
}

#[test]
fn test_alloc_extend_result_err() {
    let mut arena: Arena<Stop> = Arena::new();
    let stops_vec = vec![Ok(Stop(1)), Ok(Stop(2)), Ok(Stop(3)), Ok(Stop(4)), Err("fail")];
    let err = arena.alloc_extend_result(stops_vec.clone()).unwrap_err();
    assert_eq!(err, "fail");
    assert_eq!(0, arena.len());
}

#[test]
fn slice_indices_walk_the_slice() {
    let mut arena: Arena<Stop> = Arena::with_capacity(4);
    arena.allocate(Stop(9));
    let slice_ref = arena.alloc_extend(vec![Stop(1), Stop(2), Stop(3)]);
    assert_eq!(slice_ref.len(), 3);
    let indices = slice_ref.iter();
    assert_eq!(indices.len(), 3);
    assert_eq!(*arena.get(indices[0]), Stop(1));
    assert_eq!(arena[indices[2]], Stop(3));
}
