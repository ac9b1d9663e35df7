use rectree2svg::check_contour_postorder;
use rectree2svg::cladogramme;
use rectree2svg::get_contour_left;
use rectree2svg::get_contour_right;
use rectree2svg::get_maxdepth;
use rectree2svg::knuth_layout;
use rectree2svg::node_xpos;
use rectree2svg::phylogram::are_lengths_bounded;
use rectree2svg::push_right;
use rectree2svg::real_length;
use rectree2svg::set_leaves_to_bottom;
use rectree2svg::set_middle_postorder;
use rectree2svg::shift_mod_xy;
use rectree2svg::ArenaTree;
use rectree2svg::Event;
use rectree2svg::LayoutError;
use rectree2svg::Options;
use rectree2svg::BLOCK;

fn link(tree: &mut ArenaTree<String>, parent: usize, child: usize) {
    tree.arena[parent].children.push(child);
    tree.arena[child].parent = Some(parent);
}

fn named(tree: &mut ArenaTree<String>, name: &str) -> usize {
    let i = tree.new_node(name.to_string());
    tree.arena[i].name = name.to_string();
    i
}

/// ((A,B),(C,D)): returns root, ab, cd, a, b, c, d.
fn four_leaves() -> (ArenaTree<String>, [usize; 7]) {
    let mut tree: ArenaTree<String> = ArenaTree::default();
    let root = named(&mut tree, "root");
    let ab = named(&mut tree, "ab");
    let cd = named(&mut tree, "cd");
    let a = named(&mut tree, "A");
    let b = named(&mut tree, "B");
    let c = named(&mut tree, "C");
    let d = named(&mut tree, "D");
    link(&mut tree, root, ab);
    link(&mut tree, root, cd);
    link(&mut tree, ab, a);
    link(&mut tree, ab, b);
    link(&mut tree, cd, c);
    link(&mut tree, cd, d);
    (tree, [root, ab, cd, a, b, c, d])
}

/// (((A,B),C),D): a caterpillar. Returns root, abc, ab, a, b, c, d.
fn caterpillar() -> (ArenaTree<String>, [usize; 7]) {
    let mut tree: ArenaTree<String> = ArenaTree::default();
    let root = named(&mut tree, "root");
    let abc = named(&mut tree, "abc");
    let d = named(&mut tree, "D");
    let ab = named(&mut tree, "ab");
    let c = named(&mut tree, "C");
    let a = named(&mut tree, "A");
    let b = named(&mut tree, "B");
    link(&mut tree, root, abc);
    link(&mut tree, root, d);
    link(&mut tree, abc, ab);
    link(&mut tree, abc, c);
    link(&mut tree, ab, a);
    link(&mut tree, ab, b);
    (tree, [root, abc, ab, a, b, c, d])
}

fn one_child() -> (ArenaTree<String>, usize) {
    let mut tree: ArenaTree<String> = ArenaTree::default();
    let root = named(&mut tree, "root");
    let left = named(&mut tree, "left");
    let right = named(&mut tree, "right");
    let only = named(&mut tree, "only");
    link(&mut tree, root, left);
    link(&mut tree, root, right);
    link(&mut tree, right, only);
    (tree, root)
}

fn xs(tree: &ArenaTree<String>) -> Vec<i64> {
    tree.arena.iter().map(|n| n.x).collect()
}

fn ys(tree: &ArenaTree<String>) -> Vec<i64> {
    tree.arena.iter().map(|n| n.y).collect()
}

fn xmods(tree: &ArenaTree<String>) -> Vec<i64> {
    tree.arena.iter().map(|n| n.xmod).collect()
}

#[test]
fn knuth_layout_places_levels_and_sides() {
    let (mut tree, [root, ab, cd, a, b, c, d]) = four_leaves();
    tree.arena[root].x = 7;
    let mut depth = 1;
    assert_eq!(knuth_layout(&mut tree, root, &mut depth), Ok(()));
    assert_eq!(depth, 1);
    assert_eq!(tree.arena[root].y, BLOCK);
    assert_eq!(tree.arena[root].x, 7);
    for n in [ab, cd] {
        assert_eq!(tree.arena[n].y, 2 * BLOCK);
    }
    for n in [a, b, c, d] {
        assert_eq!(tree.arena[n].y, 3 * BLOCK);
    }
    for n in [ab, a, c] {
        assert_eq!(tree.arena[n].x, 0);
    }
    for n in [cd, b, d] {
        assert_eq!(tree.arena[n].x, BLOCK);
    }
    assert_eq!(xmods(&tree), vec![0; 7]);
}

#[test]
fn knuth_layout_of_a_subtree_leaves_the_rest() {
    let (mut tree, [root, ab, cd, a, b, c, d]) = four_leaves();
    let mut depth = 4;
    assert_eq!(knuth_layout(&mut tree, cd, &mut depth), Ok(()));
    assert_eq!(tree.arena[cd].y, 4 * BLOCK);
    assert_eq!(tree.arena[c].y, 5 * BLOCK);
    assert_eq!(tree.arena[d].y, 5 * BLOCK);
    assert_eq!(tree.arena[d].x, BLOCK);
    for n in [root, ab, a, b] {
        assert_eq!(tree.arena[n].y, 0);
        assert_eq!(tree.arena[n].x, 0);
    }
}

#[test]
fn simple_cladogram() {
    let (mut tree, [root, abc, ab, a, b, c, d]) = caterpillar();
    assert_eq!(knuth_layout(&mut tree, root, &mut 1), Ok(()));
    assert_eq!(tree.arena[d].y, 2 * BLOCK);
    assert_eq!(cladogramme(&mut tree), Ok(()));
    for n in [a, b, c, d] {
        assert_eq!(tree.arena[n].y, 4 * BLOCK);
    }
    assert_eq!(tree.arena[root].y, BLOCK);
    assert_eq!(tree.arena[abc].y, 2 * BLOCK);
    assert_eq!(tree.arena[ab].y, 3 * BLOCK);
}

#[test]
fn simple_cladogram_four_leaves() {
    let (mut tree, [root, ab, cd, a, b, c, d]) = four_leaves();
    assert_eq!(knuth_layout(&mut tree, root, &mut 1), Ok(()));
    assert_eq!(cladogramme(&mut tree), Ok(()));
    let leaf_y = tree.arena[a].y;
    assert_eq!(leaf_y, 3 * BLOCK);
    for n in [a, b, c, d] {
        assert_eq!(tree.arena[n].y, leaf_y);
    }
    for n in [root, ab, cd] {
        assert!(tree.arena[n].y < leaf_y);
    }
}

#[test]
fn cladogram_stops_a_loss_one_row_higher() {
    let (mut tree, [root, _abc, _ab, a, b, c, d]) = caterpillar();
    tree.arena[d].e = Event::Loss;
    assert_eq!(knuth_layout(&mut tree, root, &mut 1), Ok(()));
    assert_eq!(cladogramme(&mut tree), Ok(()));
    assert_eq!(tree.arena[d].y, 3 * BLOCK);
    for n in [a, b, c] {
        assert_eq!(tree.arena[n].y, 4 * BLOCK);
    }
}

#[test]
fn cladogram_needs_one_root() {
    let mut tree: ArenaTree<String> = ArenaTree::default();
    assert_eq!(cladogramme(&mut tree), Err(LayoutError::NoRoot));
    let a = named(&mut tree, "a");
    let b = named(&mut tree, "b");
    assert_eq!(cladogramme(&mut tree), Err(LayoutError::MultipleRoots));
    assert_eq!(tree.get_root(), Err(LayoutError::MultipleRoots));
    let r = named(&mut tree, "r");
    link(&mut tree, r, a);
    link(&mut tree, r, b);
    assert_eq!(tree.get_root(), Ok(r));
    assert_eq!(cladogramme(&mut tree), Ok(()));
    assert_eq!(tree.arena[a].y, 2 * BLOCK);
}

#[test]
fn maxdepth_is_the_depth_of_the_deepest_node() {
    let (mut tree, [root, abc, ab, a, _b, _c, d]) = caterpillar();
    let mut max = 0;
    assert_eq!(get_maxdepth(&mut tree, root, &mut max), Ok(3));
    assert_eq!(max, 3);
    let mut max = 0;
    assert_eq!(get_maxdepth(&mut tree, abc, &mut max), Ok(3));
    let mut max = 0;
    assert_eq!(get_maxdepth(&mut tree, ab, &mut max), Ok(3));
    let mut max = 0;
    assert_eq!(get_maxdepth(&mut tree, a, &mut max), Ok(0));
    let mut max = 0;
    assert_eq!(get_maxdepth(&mut tree, d, &mut max), Ok(0));
    let mut max = 9;
    assert_eq!(get_maxdepth(&mut tree, root, &mut max), Ok(9));
    assert_eq!(max, 9);
}

#[test]
fn leaves_to_bottom_touches_leaves_only() {
    let (mut tree, [root, ab, cd, a, b, c, d]) = four_leaves();
    tree.arena[b].e = Event::Loss;
    let mut max = 5;
    assert_eq!(set_leaves_to_bottom(&mut tree, ab, &mut max), Ok(()));
    assert_eq!(max, 5);
    assert_eq!(tree.arena[a].y, 6 * BLOCK);
    assert_eq!(tree.arena[b].y, 5 * BLOCK);
    for n in [root, ab, cd, c, d] {
        assert_eq!(tree.arena[n].y, 0);
    }
}

#[test]
fn one_child_is_refused_by_every_pass() {
    const ODD: usize = 2;
    let (tree, root) = one_child();
    let before_x = xs(&tree);
    let before_y = ys(&tree);
    let before_m = xmods(&tree);
    let mut tree = tree;
    assert_eq!(knuth_layout(&mut tree, root, &mut 1), Err(LayoutError::NonBinaryNode(ODD)));
    assert_eq!(cladogramme(&mut tree), Err(LayoutError::NonBinaryNode(ODD)));
    assert_eq!(get_maxdepth(&mut tree, root, &mut 0), Err(LayoutError::NonBinaryNode(ODD)));
    assert_eq!(set_leaves_to_bottom(&mut tree, root, &mut 3), Err(LayoutError::NonBinaryNode(ODD)));
    assert_eq!(check_contour_postorder(&mut tree, root), Err(LayoutError::NonBinaryNode(ODD)));
    assert_eq!(shift_mod_xy(&mut tree, root, &mut 0, &mut 0), Err(LayoutError::NonBinaryNode(ODD)));
    assert_eq!(set_middle_postorder(&mut tree, root), Err(LayoutError::NonBinaryNode(ODD)));
    assert_eq!(push_right(&mut tree, 1, 2), Err(LayoutError::NonBinaryNode(ODD)));
    let mut contour = vec![];
    assert_eq!(
        get_contour_left(&mut tree, root, 0, &mut contour, 0),
        Err(LayoutError::NonBinaryNode(ODD))
    );
    assert_eq!(
        get_contour_right(&mut tree, root, 0, &mut contour, 0),
        Err(LayoutError::NonBinaryNode(ODD))
    );
    assert!(contour.is_empty());
    assert_eq!(xs(&tree), before_x);
    assert_eq!(ys(&tree), before_y);
    assert_eq!(xmods(&tree), before_m);
}

#[test]
fn three_children_are_refused() {
    let mut tree: ArenaTree<String> = ArenaTree::default();
    let root = named(&mut tree, "root");
    const ODD: usize = 0;
    for name in ["a", "b", "c"] {
        let n = named(&mut tree, name);
        link(&mut tree, root, n);
    }
    assert_eq!(knuth_layout(&mut tree, root, &mut 1), Err(LayoutError::NonBinaryNode(ODD)));
    assert_eq!(check_contour_postorder(&mut tree, root), Err(LayoutError::NonBinaryNode(ODD)));
    assert_eq!(knuth_layout(&mut tree, 1, &mut 1), Ok(()));
}

#[test]
fn no_false_conflict() {
    let mut tree: ArenaTree<String> = ArenaTree::default();
    let root = named(&mut tree, "root");
    let a = named(&mut tree, "A");
    let b = named(&mut tree, "B");
    link(&mut tree, root, a);
    link(&mut tree, root, b);
    assert_eq!(knuth_layout(&mut tree, root, &mut 1), Ok(()));
    assert_eq!(tree.arena[b].x - tree.arena[a].x, BLOCK);
    assert_eq!(check_contour_postorder(&mut tree, root), Ok(()));
    assert_eq!(tree.arena[a].xmod, 0);
    assert_eq!(tree.arena[b].xmod, 0);
    assert_eq!(push_right(&mut tree, a, b), Ok(0));
    assert_eq!(xmods(&tree), vec![0, 0, 0]);
}

#[test]
fn forced_conflict() {
    let (mut tree, [root, ab, cd, a, b, c, d]) = four_leaves();
    assert_eq!(knuth_layout(&mut tree, root, &mut 1), Ok(()));
    // A and C both stand at 0, B at 60: at the level of the leaves the
    // right subtree starts 60 to the left of where the left one ends.
    assert_eq!(tree.arena[a].x, tree.arena[c].x);
    assert_eq!(tree.arena[c].x - tree.arena[b].x, -60);
    assert_eq!(check_contour_postorder(&mut tree, root), Ok(()));
    assert_eq!(tree.arena[cd].xmod, 60 + BLOCK);
    for n in [root, ab, a, b, c, d] {
        assert_eq!(tree.arena[n].xmod, 0);
    }
}

#[test]
fn forced_conflict_with_overlap() {
    let (mut tree, [_root, ab, cd, _a, b, c, _d]) = four_leaves();
    tree.arena[ab].x = 0;
    tree.arena[cd].x = 0;
    tree.arena[b].x = 100;
    tree.arena[c].x = 0;
    tree.arena[cd].xmod = 5;
    // level 0: 5 - 0; level 1: 0 + 5 - 100 = -95
    assert_eq!(push_right(&mut tree, ab, cd), Ok(0));
    assert_eq!(tree.arena[cd].xmod, 5 + 95 + BLOCK);
    assert_eq!(tree.arena[ab].xmod, 0);
}

#[test]
fn a_short_neighbour_is_continued_downwards() {
    // left subtree: a single leaf at 200; right subtree: two levels, its
    // leaves at 0 and 60: the leaf is compared with both levels.
    let mut tree: ArenaTree<String> = ArenaTree::default();
    let root = named(&mut tree, "root");
    let left = named(&mut tree, "left");
    let right = named(&mut tree, "right");
    let c = named(&mut tree, "C");
    let d = named(&mut tree, "D");
    link(&mut tree, root, left);
    link(&mut tree, root, right);
    link(&mut tree, right, c);
    link(&mut tree, right, d);
    tree.arena[left].x = 200;
    tree.arena[right].x = 300;
    tree.arena[c].x = -50;
    tree.arena[d].x = 60;
    // level 0: 300 - 200 = 100; level 1: (300-300) + -50 ... the contour of
    // `right` at level 1 is -50, that of `left` is continued as 200.
    assert_eq!(push_right(&mut tree, left, right), Ok(0));
    assert_eq!(tree.arena[right].xmod, 250 + BLOCK);
}

#[test]
fn contours_take_every_node_of_a_level() {
    let (mut tree, [root, abc, ab, a, b, c, d]) = caterpillar();
    tree.arena[root].x = 1;
    tree.arena[abc].x = 10;
    tree.arena[d].x = 500;
    tree.arena[ab].x = 20;
    tree.arena[c].x = 40;
    tree.arena[a].x = 300;
    tree.arena[b].x = 30;
    tree.arena[abc].xmod = 2;
    tree.arena[ab].xmod = 3;
    let mut right = vec![];
    assert_eq!(get_contour_right(&mut tree, root, 0, &mut right, 0), Ok(()));
    assert_eq!(right, vec![1, 500, 42, 305]);
    let mut left = vec![];
    assert_eq!(get_contour_left(&mut tree, root, 0, &mut left, 0), Ok(()));
    assert_eq!(left, vec![1, 12, 25, 35]);
    // a contour that holds values already, and a subtree moved by 1000
    let mut left = vec![0, 0, 2000];
    assert_eq!(get_contour_left(&mut tree, abc, 0, &mut left, 1000), Ok(()));
    assert_eq!(left, vec![0, 0, 1025, 1035]);
    let mut right = vec![7];
    assert_eq!(get_contour_right(&mut tree, abc, 1, &mut right, 0), Ok(()));
    assert_eq!(right, vec![12, 42, 305]);
}

#[test]
fn contours_count_half_a_pipe() {
    let mut tree: ArenaTree<String> = ArenaTree::default();
    let n = named(&mut tree, "n");
    tree.arena[n].x = 100;
    tree.arena[n].xmod = 4;
    tree.arena[n].nbg = 3;
    assert_eq!(node_xpos(&mut tree, n, 10, 1), 100 + 4 + 22 + 10);
    assert_eq!(node_xpos(&mut tree, n, 10, -1), 100 + 4 - 22 + 10);
    assert_eq!(node_xpos(&mut tree, n, 0, 0), 104);
    let mut right = vec![];
    assert_eq!(get_contour_right(&mut tree, n, 0, &mut right, 0), Ok(()));
    assert_eq!(right, vec![126]);
    let mut left = vec![];
    assert_eq!(get_contour_left(&mut tree, n, 0, &mut left, 0), Ok(()));
    assert_eq!(left, vec![82]);
}

#[test]
fn negative_modifier_is_refused() {
    let (mut tree, [root, ab, cd, _a, b, _c, _d]) = four_leaves();
    tree.arena[b].xmod = -1;
    assert_eq!(
        check_contour_postorder(&mut tree, root),
        Err(LayoutError::NegativeModifierInvariantViolated(b))
    );
    assert_eq!(
        push_right(&mut tree, ab, cd),
        Err(LayoutError::NegativeModifierInvariantViolated(b))
    );
    let mut contour = vec![];
    assert_eq!(
        get_contour_right(&mut tree, ab, 1, &mut contour, 0),
        Err(LayoutError::NegativeModifierInvariantViolated(b))
    );
    // below `cd` nothing is negative: C and D coincide, D is pushed
    assert_eq!(check_contour_postorder(&mut tree, cd), Ok(()));
    assert_eq!(xmods(&tree), vec![0, 0, 0, 0, -1, 0, 60]);
    // the modifier of the root of the subtree plays no part
    tree.arena[b].xmod = 0;
    tree.arena[root].xmod = -5;
    assert_eq!(check_contour_postorder(&mut tree, root), Ok(()));
    let mut contour = vec![];
    assert_eq!(
        get_contour_left(&mut tree, root, 0, &mut contour, 0),
        Err(LayoutError::NegativeModifierInvariantViolated(root))
    );
}

#[test]
fn the_node_at_fault_is_the_one_with_the_least_index() {
    let (mut tree, [root, ab, cd, a, b, c, d]) = four_leaves();
    for n in [d, c, b] {
        tree.arena[n].xmod = -1;
    }
    assert_eq!(
        check_contour_postorder(&mut tree, root),
        Err(LayoutError::NegativeModifierInvariantViolated(b))
    );
    assert_eq!(
        check_contour_postorder(&mut tree, cd),
        Err(LayoutError::NegativeModifierInvariantViolated(c))
    );
    assert_eq!(
        push_right(&mut tree, cd, ab),
        Err(LayoutError::NegativeModifierInvariantViolated(c))
    );
    assert_eq!(check_contour_postorder(&mut tree, d), Ok(()));
    let extra = named(&mut tree, "extra");
    link(&mut tree, d, extra);
    let more = named(&mut tree, "more");
    link(&mut tree, a, more);
    assert_eq!(knuth_layout(&mut tree, root, &mut 1), Err(LayoutError::NonBinaryNode(a)));
    assert_eq!(knuth_layout(&mut tree, cd, &mut 1), Err(LayoutError::NonBinaryNode(d)));
    assert_eq!(push_right(&mut tree, cd, ab), Err(LayoutError::NonBinaryNode(d)));
    assert_eq!(push_right(&mut tree, ab, cd), Err(LayoutError::NonBinaryNode(a)));
    assert_eq!(knuth_layout(&mut tree, b, &mut 1), Ok(()));
}

#[test]
fn shift_applies_the_modifiers_of_the_path() {
    let (mut tree, [root, ab, cd, a, b, c, d]) = four_leaves();
    assert_eq!(knuth_layout(&mut tree, root, &mut 1), Ok(()));
    tree.arena[root].xmod = 1;
    tree.arena[cd].xmod = 100;
    tree.arena[d].xmod = 1000;
    tree.arena[ab].ymod = 7;
    let (mut dx, mut dy) = (10000, -20);
    assert_eq!(shift_mod_xy(&mut tree, root, &mut dx, &mut dy), Ok(()));
    assert_eq!((dx, dy), (10000, -20));
    assert_eq!(tree.arena[root].x, 10001);
    assert_eq!(tree.arena[ab].x, 10001);
    assert_eq!(tree.arena[a].x, 10001);
    assert_eq!(tree.arena[b].x, 10061);
    assert_eq!(tree.arena[cd].x, 10161);
    assert_eq!(tree.arena[c].x, 10101);
    assert_eq!(tree.arena[d].x, 11161);
    assert_eq!(tree.arena[root].y, 40);
    assert_eq!(tree.arena[ab].y, 107);
    assert_eq!(tree.arena[a].y, 167);
    assert_eq!(tree.arena[cd].y, 100);
    assert_eq!(xmods(&tree), vec![1, 0, 100, 0, 0, 0, 1000]);
}

#[test]
fn centering_puts_parents_halfway() {
    let (mut tree, [root, ab, cd, a, b, c, d]) = four_leaves();
    tree.arena[a].x = 0;
    tree.arena[b].x = 60;
    tree.arena[c].x = 120;
    tree.arena[d].x = 181;
    tree.arena[root].x = 5;
    tree.arena[cd].x = 100;
    tree.arena[d].xmod = 9;
    assert_eq!(set_middle_postorder(&mut tree, root), Ok(()));
    assert_eq!(tree.arena[ab].x, 30);
    assert_eq!(tree.arena[cd].x, 150);
    assert_eq!(tree.arena[root].x, 90);
    assert_eq!(tree.arena[ab].xmod, 0 + 30 - 0);
    assert_eq!(tree.arena[cd].xmod, 9 + 150 - 100);
    assert_eq!(tree.arena[root].xmod, 59 + 90 - 5);
    for (n, x) in [(a, 0), (b, 60), (c, 120), (d, 181)] {
        assert_eq!(tree.arena[n].x, x);
    }
    assert_eq!(tree.arena[d].xmod, 9);
}

#[test]
fn centering_rounds_towards_zero() {
    let mut tree: ArenaTree<String> = ArenaTree::default();
    let root = named(&mut tree, "root");
    let a = named(&mut tree, "A");
    let b = named(&mut tree, "B");
    link(&mut tree, root, a);
    link(&mut tree, root, b);
    tree.arena[a].x = -8;
    tree.arena[b].x = 1;
    assert_eq!(set_middle_postorder(&mut tree, root), Ok(()));
    assert_eq!(tree.arena[root].x, -3);
}

#[test]
fn centering_twice_changes_no_coordinate() {
    let (mut tree, [root, ..]) = caterpillar();
    assert_eq!(knuth_layout(&mut tree, root, &mut 1), Ok(()));
    assert_eq!(check_contour_postorder(&mut tree, root), Ok(()));
    assert_eq!(shift_mod_xy(&mut tree, root, &mut 0, &mut 0), Ok(()));
    assert_eq!(set_middle_postorder(&mut tree, root), Ok(()));
    let once = xs(&tree);
    assert_eq!(set_middle_postorder(&mut tree, root), Ok(()));
    assert_eq!(xs(&tree), once);
}

/// A tree of 31 nodes built level by level, left-heavy and right-heavy
/// subtrees mixed.
fn bushy() -> (ArenaTree<String>, usize) {
    let mut tree: ArenaTree<String> = ArenaTree::default();
    let root = named(&mut tree, "n0");
    let mut open = vec![root];
    let mut count = 1;
    let mut turn = 0;
    while count < 31 {
        let parent = open.remove(if turn % 3 == 0 { 0 } else { open.len() - 1 });
        let l = named(&mut tree, &format!("n{}", count));
        let r = named(&mut tree, &format!("n{}", count + 1));
        link(&mut tree, parent, l);
        link(&mut tree, parent, r);
        open.push(l);
        open.push(r);
        count += 2;
        turn += 1;
    }
    (tree, root)
}

fn subtree(tree: &ArenaTree<String>, v: usize) -> Vec<usize> {
    let mut out = vec![v];
    let mut i = 0;
    while i < out.len() {
        out.extend(tree.arena[out[i]].children.iter().copied());
        i += 1;
    }
    out
}

#[test]
fn resolved_and_shifted_subtrees_do_not_overlap() {
    let (mut tree, root) = bushy();
    assert_eq!(knuth_layout(&mut tree, root, &mut 1), Ok(()));
    assert_eq!(cladogramme(&mut tree), Ok(()));
    assert_eq!(check_contour_postorder(&mut tree, root), Ok(()));
    assert_eq!(shift_mod_xy(&mut tree, root, &mut 0, &mut 0), Ok(()));
    let mut pairs = 0;
    for n in 0..tree.arena.len() {
        if tree.arena[n].children.len() == 2 {
            let l = tree.arena[n].children[0];
            let r = tree.arena[n].children[1];
            for p in subtree(&tree, l) {
                for q in subtree(&tree, r) {
                    if tree.depth(p) == tree.depth(q) {
                        assert!(tree.arena[p].x < tree.arena[q].x);
                        pairs += 1;
                    }
                }
            }
        }
    }
    assert!(pairs > 30);
    assert!(tree.arena.iter().all(|n| n.xmod >= 0));
}

#[test]
fn a_whole_layout() {
    let mut tree: ArenaTree<String> = ArenaTree::default();
    let root = named(&mut tree, "root");
    let a1 = named(&mut tree, "a1");
    let a2 = named(&mut tree, "a2");
    let a = named(&mut tree, "a");
    let b = named(&mut tree, "b");
    let c = named(&mut tree, "c");
    let d = named(&mut tree, "d");
    link(&mut tree, a, a1);
    link(&mut tree, a, a2);
    link(&mut tree, c, a);
    link(&mut tree, c, b);
    link(&mut tree, root, c);
    link(&mut tree, root, d);
    tree.arena[a].e = Event::Duplication;
    assert!(tree.is_well_formed());
    assert_eq!(knuth_layout(&mut tree, root, &mut 1), Ok(()));
    assert_eq!(cladogramme(&mut tree), Ok(()));
    assert!(tree.is_bounded());
    assert_eq!(check_contour_postorder(&mut tree, root), Ok(()));
    // b is pushed clear of a2, d clear of b
    assert_eq!(tree.arena[b].xmod, 60);
    assert_eq!(tree.arena[d].xmod, 120);
    assert_eq!(shift_mod_xy(&mut tree, root, &mut 0, &mut 0), Ok(()));
    assert_eq!(set_middle_postorder(&mut tree, root), Ok(()));
    let place = |n: usize| (tree.arena[n].x, tree.arena[n].y);
    assert_eq!(place(a1), (0, 240));
    assert_eq!(place(a2), (60, 240));
    assert_eq!(place(b), (120, 240));
    assert_eq!(place(d), (180, 240));
    assert_eq!(place(a), (30, 180));
    assert_eq!(place(c), (75, 120));
    assert_eq!(place(root), (127, 60));
}

#[test]
fn heights_follow_the_lengths_of_branches() {
    let (mut tree, [root, ab, cd, a, b, c, d]) = four_leaves();
    for (n, l) in [(root, 500), (ab, 1250), (cd, 0), (a, 1), (b, 2000), (c, -1), (d, -2000)] {
        tree.arena[n].l = l;
    }
    let options = Options::new();
    assert_eq!(options.scale, 1000);
    assert!(!options.gene_internal && !options.species_internal);
    assert!(are_lengths_bounded(&tree));
    let mut dist = 0;
    assert_eq!(real_length(&mut tree, root, &mut dist, &options), Ok(()));
    assert_eq!(dist, 0);
    assert_eq!(tree.arena[root].y, 60 + 30);
    assert_eq!(tree.arena[ab].y, 60 + 105);
    assert_eq!(tree.arena[cd].y, 60 + 30);
    assert_eq!(tree.arena[a].y, 60 + 105);
    assert_eq!(tree.arena[b].y, 60 + 225);
    assert_eq!(tree.arena[c].y, 60 + 29);
    assert_eq!(tree.arena[d].y, 60 - 90);
    assert_eq!(xs(&tree), vec![0; 7]);
    // stretched two and a half times, after a length of one, below `ab`
    let mut options = Options::new();
    options.scale = 2500;
    assert_eq!(real_length(&mut tree, ab, &mut 1000, &options), Ok(()));
    assert_eq!(tree.arena[ab].y, 60 + 337);
    assert_eq!(tree.arena[a].y, 60 + 337);
    assert_eq!(tree.arena[b].y, 60 + 637);
    assert_eq!(tree.arena[root].y, 90);
    // a length just below zero rounds to nothing
    tree.arena[c].l = -1;
    assert_eq!(real_length(&mut tree, c, &mut 0, &Options::new()), Ok(()));
    assert_eq!(tree.arena[c].y, 60);
    tree.arena[c].l = 1 << 31;
    assert!(!are_lengths_bounded(&tree));
}

#[test]
fn scaling_refuses_one_child() {
    let (mut tree, root) = one_child();
    assert_eq!(
        real_length(&mut tree, root, &mut 0, &Options::new()),
        Err(LayoutError::NonBinaryNode(2))
    );
}

#[test]
fn an_odd_node_is_refused_whatever_the_limits() {
    const ODD: usize = 2;
    let (mut tree, root) = one_child();
    for n in tree.arena.iter_mut() {
        n.x = i64::MAX;
        n.xmod = i64::MIN;
        n.ymod = i64::MAX;
    }
    let before_x = xs(&tree);
    assert_eq!(
        knuth_layout(&mut tree, root, &mut usize::MAX),
        Err(LayoutError::NonBinaryNode(ODD))
    );
    assert_eq!(
        set_leaves_to_bottom(&mut tree, root, &mut usize::MAX),
        Err(LayoutError::NonBinaryNode(ODD))
    );
    assert_eq!(
        shift_mod_xy(&mut tree, root, &mut i64::MAX, &mut i64::MIN),
        Err(LayoutError::NonBinaryNode(ODD))
    );
    assert_eq!(set_middle_postorder(&mut tree, root), Err(LayoutError::NonBinaryNode(ODD)));
    assert_eq!(check_contour_postorder(&mut tree, root), Err(LayoutError::NonBinaryNode(ODD)));
    let mut contour = vec![];
    assert_eq!(
        get_contour_right(&mut tree, root, 0, &mut contour, i64::MAX),
        Err(LayoutError::NonBinaryNode(ODD))
    );
    assert_eq!(xs(&tree), before_x);
}

#[test]
fn a_resolved_tree_can_be_shifted_and_centred_twice() {
    let (mut tree, ids) = four_leaves();
    let root = ids[0];
    assert_eq!(knuth_layout(&mut tree, root, &mut 1), Ok(()));
    assert_eq!(check_contour_postorder(&mut tree, root), Ok(()));
    assert_eq!(shift_mod_xy(&mut tree, root, &mut 0, &mut 0), Ok(()));
    assert_eq!(set_middle_postorder(&mut tree, root), Ok(()));
    let once = xs(&tree);
    assert_eq!(set_middle_postorder(&mut tree, root), Ok(()));
    assert_eq!(xs(&tree), once);
    // at each depth, what hangs under a left child lies left of what hangs
    // under the right child
    let [_, ab, cd, a, b, c, d] = ids;
    assert!(tree.arena[ab].x < tree.arena[cd].x);
    assert!(tree.arena[a].x < tree.arena[b].x);
    assert!(tree.arena[b].x < tree.arena[c].x);
    assert!(tree.arena[c].x < tree.arena[d].x);
}
