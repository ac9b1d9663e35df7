use rectree2svg::explore_postorder;
use rectree2svg::node::half_down_of;
use rectree2svg::postorder;
use rectree2svg::ArenaTree;
use rectree2svg::Event;
use rectree2svg::LayoutError;
use rectree2svg::Noeud;
use rectree2svg::COORD_LIMIT;
use rectree2svg::PIPEBLOCK;

fn link(tree: &mut ArenaTree<String>, parent: usize, child: usize) {
    tree.arena[parent].children.push(child);
    tree.arena[child].parent = Some(parent);
}

/// n0 -> (n1, n2), n1 -> (n3, n4)
fn five() -> ArenaTree<String> {
    let mut tree: ArenaTree<String> = ArenaTree::default();
    for i in 0..5 {
        let n = tree.new_node(format!("v{}", i));
        tree.arena[n].name = format!("n{}", i);
    }
    link(&mut tree, 0, 1);
    link(&mut tree, 0, 2);
    link(&mut tree, 1, 3);
    link(&mut tree, 1, 4);
    tree
}

#[test]
fn check_event() {
    let mut tree: ArenaTree<String> = ArenaTree::default();
    let test = String::from("Test");
    let index = tree.new_node(test);
    let node = &mut tree.arena[index];
    node.set_event(Event::Duplication);
    assert_eq!(node.e, Event::Duplication);
}

#[test]
fn check_x_noref() {
    let mut tree: ArenaTree<String> = ArenaTree::default();
    let test = String::from("Test");
    let index = tree.new_node(test);
    let node = &mut tree.arena[index];
    node.set_x_noref(10);
    let x = node.x;
    assert_eq!(x, 10);
}

#[test]
fn a_fresh_node() {
    let n: Noeud<String> = Noeud::new(4, "payload".to_string());
    assert_eq!(n.idx, 4);
    assert_eq!(n.val, "payload");
    assert_eq!(n.name, "Undefined");
    assert_eq!(n.location, "Undefined");
    assert_eq!(n.parent, None);
    assert!(n.children.is_empty());
    assert_eq!((n.x, n.xmod, n.y, n.ymod, n.l), (0, 0, 0, 0, 0));
    assert_eq!(n.e, Event::Undef);
    assert_eq!((n.width, n.height), (PIPEBLOCK, PIPEBLOCK));
    assert_eq!(n.nbg, 0);
    assert!(n.nodes.is_empty());
    assert!(!n.is_a_transfert);
    assert_eq!(Event::default(), Event::Undef);
}

#[test]
fn getters_and_setters() {
    let mut n: Noeud<String> = Noeud::new(3, "v".to_string());
    n.set_x(&5);
    n.set_y(&-6);
    assert_eq!(*n.get_x(), 5);
    assert_eq!(*n.get_y(), -6);
    assert_eq!(n.get_coords(), (&5, &-6));
    n.set_y_noref(7);
    n.set_xmod_noref(8);
    n.set_ymod_noref(-9);
    assert_eq!((n.x, n.y, n.xmod, n.ymod), (5, 7, 8, -9));
    assert_eq!(*n.get_index(), 3);
    assert_eq!(n.get_val(), "v");
    n.set_event(Event::TransferBack);
    assert_eq!(*n.get_event(), Event::TransferBack);
}

#[test]
fn node_finds_or_adds() {
    let mut tree: ArenaTree<String> = ArenaTree::default();
    assert_eq!(tree.arena.len(), 0);
    assert_eq!(tree.node("a".to_string()), 0);
    assert_eq!(tree.new_node("b".to_string()), 1);
    assert_eq!(tree.node("a".to_string()), 0);
    assert_eq!(tree.node("b".to_string()), 1);
    assert_eq!(tree.node("c".to_string()), 2);
    assert_eq!(tree.arena.len(), 3);
    assert_eq!(tree.arena[2].idx, 2);
    assert_eq!(tree.arena[2].val, "c");
    assert_eq!(tree.arena[2].name, "Undefined");
}

#[test]
fn names_are_found_first_and_last() {
    let mut tree = five();
    tree.arena[3].name = "n1".to_string();
    assert_eq!(tree.get_index("n1".to_string()), 1);
    assert_eq!(tree.get_index("n4".to_string()), 4);
    assert_eq!(tree.find_index(&"n1".to_string()), Some(1));
    assert_eq!(tree.find_last_index(&"n1".to_string()), Some(3));
    assert_eq!(tree.find_index(&"n3".to_string()), None);
    assert_eq!(tree.find_last_index(&"nowhere".to_string()), None);
}

#[test]
fn roots_leaves_sides_and_depths() {
    let mut tree = five();
    assert_eq!(tree.get_root(), Ok(0));
    let leaves: Vec<bool> = (0..5).map(|i| tree.is_leaf(i)).collect();
    assert_eq!(leaves, vec![false, false, true, true, true]);
    let lefts: Vec<bool> = (0..5).map(|i| tree.is_left(i)).collect();
    assert_eq!(lefts, vec![false, true, false, true, false]);
    let roots: Vec<bool> = (0..5).map(|i| tree.is_root(i)).collect();
    assert_eq!(roots, vec![true, false, false, false, false]);
    let depths: Vec<usize> = (0..5).map(|i| tree.depth(i)).collect();
    assert_eq!(depths, vec![0, 1, 1, 2, 2]);
    tree.arena[2].parent = None;
    assert_eq!(tree.get_root(), Err(LayoutError::MultipleRoots));
    let mut empty: ArenaTree<String> = ArenaTree::default();
    assert_eq!(empty.get_root(), Err(LayoutError::NoRoot));
}

#[test]
fn subtrees() {
    let tree = five();
    let under1: Vec<bool> = (0..5).map(|n| tree.is_under(1, n)).collect();
    assert_eq!(under1, vec![false, true, false, true, true]);
    assert!((0..5).all(|n| tree.is_under(0, n)));
    assert!(!tree.is_under(3, 4));
    assert!(tree.is_binary(0));
    assert_eq!(tree.find_odd(0), None);
    let mut tree = tree;
    let extra = tree.new_node("extra".to_string());
    link(&mut tree, 4, extra);
    assert!(!tree.is_binary(0));
    assert!(!tree.is_binary(1));
    assert!(tree.is_binary(2));
    assert!(tree.is_binary(3));
    assert_eq!(tree.find_odd(0), Some(4));
    assert_eq!(tree.find_odd(4), Some(4));
    assert_eq!(tree.find_odd(5), None);
}

#[test]
fn edges_of_a_tree() {
    let mut tree = five();
    assert_eq!(tree.get_largest_x(), 7);
    assert_eq!(tree.get_largest_y(), 7);
    assert_eq!(tree.get_smallest_x(), -7);
    assert_eq!(tree.get_smallest_y(), -7);
    tree.arena[2].x = 100;
    tree.arena[2].width = 31;
    tree.arena[3].y = -40;
    tree.arena[3].height = 10;
    tree.arena[4].y = 90;
    tree.arena[4].height = 0;
    tree.arena[1].x = -3;
    assert_eq!(tree.get_largest_x(), 115);
    assert_eq!(tree.get_smallest_x(), -10);
    assert_eq!(tree.get_largest_y(), 90);
    assert_eq!(tree.get_smallest_y(), -45);
    let mut empty: ArenaTree<String> = ArenaTree::default();
    assert_eq!(empty.get_largest_x(), 0);
    assert_eq!(empty.get_smallest_y(), 1000000);
    for n in 0..5 {
        tree.arena[n].x = -500;
        tree.arena[n].y = 2000000;
        tree.arena[n].height = 0;
    }
    assert_eq!(tree.get_largest_x(), 0);
    assert_eq!(tree.get_smallest_y(), 1000000);
}

#[test]
fn well_formed_trees() {
    let empty: ArenaTree<String> = ArenaTree::default();
    assert!(empty.is_well_formed());
    assert!(five().is_well_formed());
    // a node that does not know its index
    let mut t = five();
    t.arena[2].idx = 3;
    assert!(!t.is_well_formed());
    // a child that names another parent
    let mut t = five();
    t.arena[3].parent = Some(2);
    assert!(!t.is_well_formed());
    // a child that names no parent
    let mut t = five();
    t.arena[3].parent = None;
    assert!(!t.is_well_formed());
    // a parent that does not list its child
    let mut t = five();
    t.arena[0].children.pop();
    assert!(!t.is_well_formed());
    // a child listed twice
    let mut t = five();
    t.arena[0].children.push(1);
    assert!(!t.is_well_formed());
    // a child that is no node
    let mut t = five();
    t.arena[2].children.push(9);
    assert!(!t.is_well_formed());
    // a parent that is no node
    let mut t = five();
    t.arena[0].parent = Some(9);
    assert!(!t.is_well_formed());
    // a circle
    let mut t = five();
    t.arena[0].parent = Some(3);
    t.arena[3].children.push(0);
    assert!(!t.is_well_formed());
    // a node that is its own parent
    let mut t: ArenaTree<String> = ArenaTree::default();
    let n = t.new_node("n".to_string());
    link(&mut t, n, n);
    assert!(!t.is_well_formed());
    // a forest is well formed
    let mut t = five();
    t.new_node("alone".to_string());
    assert!(t.is_well_formed());
}

#[test]
fn bounded_trees() {
    let mut t = five();
    assert!(t.is_bounded());
    t.arena[1].x = COORD_LIMIT;
    t.arena[2].y = -COORD_LIMIT;
    t.arena[3].xmod = COORD_LIMIT;
    t.arena[3].ymod = -COORD_LIMIT;
    assert!(t.is_bounded());
    t.arena[4].x = COORD_LIMIT + 1;
    assert!(!t.is_bounded());
    t.arena[4].x = 0;
    t.arena[4].ymod = -COORD_LIMIT - 1;
    assert!(!t.is_bounded());
    t.arena[4].ymod = 0;
    t.arena[0].width = -1;
    assert!(!t.is_bounded());
    t.arena[0].width = 0;
    t.arena[0].nbg = rectree2svg::NODE_LIMIT + 1;
    assert!(!t.is_bounded());
    t.arena[0].nbg = rectree2svg::NODE_LIMIT;
    assert!(t.is_bounded());
}

#[test]
fn children_come_before_parents() {
    let mut tree = five();
    assert_eq!(postorder(&mut tree), Ok(vec![3, 4, 1, 2, 0]));
    assert_eq!(explore_postorder(&mut tree, 1), Ok(vec![3, 4, 1]));
    assert_eq!(explore_postorder(&mut tree, 2), Ok(vec![2]));
    let extra = tree.new_node("extra".to_string());
    assert_eq!(postorder(&mut tree), Err(LayoutError::MultipleRoots));
    link(&mut tree, 2, extra);
    assert_eq!(postorder(&mut tree), Err(LayoutError::NonBinaryNode(2)));
    assert_eq!(explore_postorder(&mut tree, 1), Ok(vec![3, 4, 1]));
    let mut empty: ArenaTree<String> = ArenaTree::default();
    assert_eq!(postorder(&mut empty), Err(LayoutError::NoRoot));
}

#[test]
fn halving_downwards() {
    assert_eq!(half_down_of(5), 2);
    assert_eq!(half_down_of(4), 2);
    assert_eq!(half_down_of(0), 0);
    assert_eq!(half_down_of(-1), -1);
    assert_eq!(half_down_of(-4), -2);
    assert_eq!(half_down_of(-5), -3);
    assert_eq!(half_down_of(i64::MIN), i64::MIN / 2);
    assert_eq!(half_down_of(i64::MAX), i64::MAX / 2);
}
