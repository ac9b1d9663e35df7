use rectree2svg::is_splittable;
use rectree2svg::listing::listed_nodes;
use rectree2svg::ready::are_genes_bounded;
use rectree2svg::ready::are_lists_distinct;
use rectree2svg::ready::are_lists_settled;
use rectree2svg::ready::are_lists_valid;
use rectree2svg::ready::are_trees_sound;
use rectree2svg::ready::have_room;
use rectree2svg::ArenaTree;
use rectree2svg::Event;
use rectree2svg::COORD_LIMIT;

fn tree_of(n: usize) -> ArenaTree<String> {
    let mut tree: ArenaTree<String> = ArenaTree::default();
    for i in 0..n {
        tree.new_node(format!("v{}", i));
    }
    tree
}

#[test]
fn lists_name_nodes_of_the_gene_trees() {
    let mut sp = tree_of(2);
    let genes = vec![tree_of(2), tree_of(3)];
    assert!(are_lists_valid(&sp, &genes));
    sp.arena[0].nodes = vec![(0, 0), (1, 2)];
    sp.arena[1].nodes = vec![(0, 1)];
    assert!(are_lists_valid(&sp, &genes));
    sp.arena[1].nodes.push((0, 2));
    assert!(!are_lists_valid(&sp, &genes));
    sp.arena[1].nodes = vec![(2, 0)];
    assert!(!are_lists_valid(&sp, &genes));
    assert!(!are_lists_valid(&sp, &vec![]));
}

#[test]
fn lists_name_no_gene_node_twice() {
    let mut sp = tree_of(2);
    sp.arena[0].nodes = vec![(0, 0), (1, 0), (0, 1)];
    sp.arena[1].nodes = vec![(0, 0)];
    assert!(are_lists_distinct(&sp));
    sp.arena[1].nodes = vec![(0, 0), (3, 3), (0, 0)];
    assert!(!are_lists_distinct(&sp));
}

#[test]
fn listed_gene_nodes_are_settled() {
    let mut sp = tree_of(1);
    let mut genes = vec![tree_of(3)];
    sp.arena[0].nodes = vec![(0, 0), (0, 1)];
    genes[0].arena[2].ymod = 5;
    genes[0].arena[2].e = Event::Duplication;
    assert!(are_lists_settled(&sp, &genes));
    genes[0].arena[1].ymod = 1;
    assert!(!are_lists_settled(&sp, &genes));
    genes[0].arena[1].ymod = -1;
    assert!(are_lists_settled(&sp, &genes));
    genes[0].arena[0].ymod = 0;
    assert!(are_lists_settled(&sp, &genes));
    sp.arena[0].nodes.push((0, 2));
    assert!(!are_lists_settled(&sp, &genes));
}

#[test]
fn gene_trees_are_sound() {
    let mut genes = vec![tree_of(3), tree_of(1)];
    assert!(are_trees_sound(&genes));
    assert!(are_trees_sound(&vec![]));
    genes[0].arena[0].children = vec![1, 2];
    genes[0].arena[1].parent = Some(0);
    assert!(!are_trees_sound(&genes));
    genes[0].arena[2].parent = Some(0);
    assert!(are_trees_sound(&genes));
    genes[1].arena[0].parent = Some(0);
    assert!(!are_trees_sound(&genes));
}

#[test]
fn the_nodes_that_a_subtree_lists() {
    let mut sp = tree_of(3);
    sp.arena[0].children = vec![1, 2];
    sp.arena[1].parent = Some(0);
    sp.arena[2].parent = Some(0);
    sp.arena[0].nodes = vec![(0, 0)];
    sp.arena[1].nodes = vec![(1, 1), (0, 2)];
    sp.arena[2].nodes = vec![(1, 0), (1, 1)];
    let genes = vec![tree_of(3), tree_of(2)];
    assert_eq!(listed_nodes(&sp, &genes, 0), vec![vec![true, false, true], vec![true, true]]);
    assert_eq!(listed_nodes(&sp, &genes, 1), vec![vec![false, false, true], vec![false, true]]);
    assert_eq!(listed_nodes(&sp, &genes, 2), vec![vec![false, false, false], vec![true, true]]);
    assert_eq!(listed_nodes(&tree_of(2), &vec![], 1), Vec::<Vec<bool>>::new());
}

#[test]
fn gene_trees_within_bounds() {
    let mut genes = vec![tree_of(2), tree_of(1)];
    assert!(are_genes_bounded(&genes));
    assert!(are_genes_bounded(&vec![]));
    genes[1].arena[0].y = -COORD_LIMIT;
    genes[0].arena[1].x = COORD_LIMIT;
    genes[0].arena[1].xmod = 3 * COORD_LIMIT;
    genes[0].arena[1].parent = Some(0);
    assert!(are_genes_bounded(&genes));
    genes[1].arena[0].y = -COORD_LIMIT - 1;
    assert!(!are_genes_bounded(&genes));
    genes[1].arena[0].y = 0;
    genes[1].arena[0].parent = Some(1);
    assert!(!are_genes_bounded(&genes));
}

#[test]
fn texts_that_can_be_split() {
    for s in ["(A,B);", "(A,B)x", "((A,B),C)r;\n", "(,)", "(a,b;", "(A,(B,C));"] {
        assert!(is_splittable(&s.to_string()), "{}", s);
    }
    for s in ["", "\n", "(", "A,B;", "(AB);", "((A,B));", "(A,", "(A,\n", "(A);\n", "()", ",", "((A,B)C,"] {
        assert!(!is_splittable(&s.to_string()), "{}", s);
    }
}

#[test]
fn room_for_every_gene_node() {
    let mut sp = tree_of(2);
    let genes = vec![tree_of(2), tree_of(3)];
    assert!(have_room(&sp, &genes));
    sp.arena[1].nbg = usize::MAX - 5;
    assert!(have_room(&sp, &genes));
    sp.arena[1].nbg = usize::MAX - 4;
    assert!(!have_room(&sp, &genes));
    assert!(have_room(&sp, &vec![]));
    assert!(have_room(&tree_of(0), &genes));
}
