use rectree2svg::check_vertical_contour_postorder;
use rectree2svg::knuth_layout;
use rectree2svg::node_ypos;
use rectree2svg::push_down;
use rectree2svg::set_species_width;
use rectree2svg::ArenaTree;
use rectree2svg::LayoutError;
use rectree2svg::PIPEBLOCK;

fn link(tree: &mut ArenaTree<String>, parent: usize, child: usize) {
    tree.arena[parent].children.push(child);
    tree.arena[child].parent = Some(parent);
}

fn named(tree: &mut ArenaTree<String>, name: &str) -> usize {
    let i = tree.new_node(name.to_string());
    tree.arena[i].name = name.to_string();
    i
}

/// root -> (a, b), a -> (c, d)
fn five() -> (ArenaTree<String>, [usize; 5]) {
    let mut tree: ArenaTree<String> = ArenaTree::default();
    let root = named(&mut tree, "root");
    let a = named(&mut tree, "a");
    let b = named(&mut tree, "b");
    let c = named(&mut tree, "c");
    let d = named(&mut tree, "d");
    link(&mut tree, root, a);
    link(&mut tree, root, b);
    link(&mut tree, a, c);
    link(&mut tree, a, d);
    (tree, [root, a, b, c, d])
}

fn ys(tree: &ArenaTree<String>) -> Vec<i64> {
    tree.arena.iter().map(|n| n.y).collect()
}

#[test]
fn pipes_are_as_thick_as_their_genes() {
    let (mut tree, [root, a, b, c, d]) = five();
    tree.arena[root].nbg = 0;
    tree.arena[a].nbg = 1;
    tree.arena[b].nbg = 2;
    tree.arena[c].nbg = 3;
    tree.arena[d].nbg = 40;
    tree.arena[d].width = 1;
    tree.arena[d].x = 9;
    set_species_width(&mut tree);
    let sizes: Vec<(i64, i64)> = tree.arena.iter().map(|n| (n.width, n.height)).collect();
    assert_eq!(sizes, vec![(15, 15), (15, 15), (30, 30), (45, 45), (600, 600)]);
    assert_eq!(tree.arena[d].x, 9);
    assert_eq!(tree.arena[d].nbg, 40);
}

#[test]
fn pipes_grow_with_each_gene_after_the_first() {
    let mut tree: ArenaTree<String> = ArenaTree::default();
    for nbg in 0..50 {
        let n = named(&mut tree, &format!("n{}", nbg));
        tree.arena[n].nbg = nbg;
    }
    set_species_width(&mut tree);
    assert_eq!(tree.arena[0].width, PIPEBLOCK);
    assert_eq!(tree.arena[1].width, PIPEBLOCK);
    for n in 1..49 {
        assert!(tree.arena[n].width < tree.arena[n + 1].width);
        assert!(tree.arena[n].height < tree.arena[n + 1].height);
        assert!(tree.arena[n].width >= PIPEBLOCK);
    }
}

#[test]
fn edges_of_a_pipe() {
    let mut tree: ArenaTree<String> = ArenaTree::default();
    let n = named(&mut tree, "n");
    tree.arena[n].y = 100;
    tree.arena[n].ymod = 5;
    tree.arena[n].height = 45;
    tree.arena[n].nbg = 1000;
    assert_eq!(node_ypos(&mut tree, n, 1), 127);
    assert_eq!(node_ypos(&mut tree, n, -1), 83);
    assert_eq!(node_ypos(&mut tree, n, 0), 105);
    assert_eq!(node_ypos(&mut tree, n, 3), 171);
}

#[test]
fn push_down_leaves_clear_children_alone() {
    let (mut tree, [root, a, b, _c, _d]) = five();
    assert_eq!(knuth_layout(&mut tree, root, &mut 1), Ok(()));
    // the parent ends at 67, the children start at 113
    push_down(&mut tree, root, a, b);
    assert_eq!(ys(&tree), vec![60, 120, 120, 180, 180]);
}

#[test]
fn push_down_by_one_pipe_unit_at_least() {
    let (mut tree, [root, a, b, _c, _d]) = five();
    assert_eq!(knuth_layout(&mut tree, root, &mut 1), Ok(()));
    tree.arena[a].y = 70;
    // a starts at 63, four above the end of the parent: 15 and 60 more
    push_down(&mut tree, root, a, b);
    assert_eq!(ys(&tree), vec![60, 145, 195, 180, 180]);
}

#[test]
fn push_down_touching_counts_as_a_collision() {
    let (mut tree, [root, a, b, _c, _d]) = five();
    tree.arena[root].y = 60;
    tree.arena[a].y = 74;
    tree.arena[b].y = 500;
    // a starts at 67, where the parent ends
    push_down(&mut tree, root, a, b);
    assert_eq!(tree.arena[a].y, 74 + 75);
    assert_eq!(tree.arena[b].y, 500 + 75);
}

#[test]
fn push_down_by_the_larger_overlap() {
    let (mut tree, [root, a, b, _c, _d]) = five();
    tree.arena[root].y = 60;
    tree.arena[root].ymod = 10;
    tree.arena[root].height = 45;
    // the parent ends at 60 + 10 + 22 = 92
    tree.arena[a].y = 0;
    tree.arena[a].height = 30;
    // a starts at -15: overlap 107
    tree.arena[b].y = 40;
    tree.arena[b].ymod = 3;
    // b starts at 36: overlap 56
    push_down(&mut tree, root, a, b);
    assert_eq!(tree.arena[a].y, 107 + 60);
    assert_eq!(tree.arena[b].y, 40 + 107 + 60);
    assert_eq!(tree.arena[root].y, 60);
    assert_eq!(tree.arena[b].ymod, 3);
}

#[test]
fn vertical_resolver_clears_a_thick_parent() {
    let (mut tree, [root, a, b, c, d]) = five();
    assert_eq!(knuth_layout(&mut tree, root, &mut 1), Ok(()));
    tree.arena[root].nbg = 10;
    set_species_width(&mut tree);
    assert_eq!(tree.arena[root].height, 150);
    // the root ends at 135; a and b start at 113: 22 and 60 more.
    // a then ends at 209; c and d start at 173: 36 and 60 more.
    assert_eq!(check_vertical_contour_postorder(&mut tree, root, 0), Ok(()));
    assert_eq!(tree.arena[root].y, 60);
    assert_eq!(tree.arena[a].y, 202);
    assert_eq!(tree.arena[b].y, 202);
    assert_eq!(tree.arena[c].y, 276);
    assert_eq!(tree.arena[d].y, 276);
}

#[test]
fn vertical_resolver_leaves_thin_pipes_alone() {
    let (mut tree, [root, ..]) = five();
    assert_eq!(knuth_layout(&mut tree, root, &mut 1), Ok(()));
    set_species_width(&mut tree);
    assert_eq!(check_vertical_contour_postorder(&mut tree, root, 77), Ok(()));
    assert_eq!(ys(&tree), vec![60, 120, 120, 180, 180]);
}

#[test]
fn vertical_resolver_refuses_one_child() {
    let (mut tree, [root, _a, b, ..]) = five();
    let extra = named(&mut tree, "extra");
    link(&mut tree, b, extra);
    assert_eq!(
        check_vertical_contour_postorder(&mut tree, root, 0),
        Err(LayoutError::NonBinaryNode(b))
    );
    assert_eq!(check_vertical_contour_postorder(&mut tree, 1, 0), Ok(()));
}
