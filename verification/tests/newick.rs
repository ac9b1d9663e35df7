use rectree2svg::bracket::is_bracketed;
use rectree2svg::bracket::is_unlabelled;
use rectree2svg::find_left_right;
use rectree2svg::label::find_char;
use rectree2svg::label::node_label;
use rectree2svg::newick2tree;
use rectree2svg::ArenaTree;
use rectree2svg::Event;

fn split(s: &str) -> (String, String, String) {
    find_left_right(s.to_string())
}

#[test]
fn split_two_leaves() {
    let (l, r, t) = split("(A,B);");
    assert_eq!(l, "A");
    assert_eq!(r, "B");
    assert_eq!(t, "");
}

#[test]
fn split_nested_with_trail() {
    let (l, r, t) = split("((A:1,B:2)ab:3,(C,D)cd)root:0.5;");
    assert_eq!(l, "(A:1,B:2)ab:3");
    assert_eq!(r, "(C,D)cd");
    assert_eq!(t, "root:0.5");
}

#[test]
fn split_drops_line_feed() {
    let (l, r, t) = split("((A,B),C)r;\n");
    assert_eq!(l, "(A,B)");
    assert_eq!(r, "C");
    assert_eq!(t, "r");
}

#[test]
fn split_without_closing_bracket() {
    let (l, r, t) = split("(A,B;");
    assert_eq!(l, "A");
    assert_eq!(r, "B");
    assert_eq!(t, "");
}

#[test]
fn split_counts_characters_not_bytes() {
    let (l, r, t) = split("(é,ü)ß;");
    assert_eq!(l, "é");
    assert_eq!(r, "ü");
    assert_eq!(t, "ß");
}

fn grown(text: &str) -> (ArenaTree<String>, Vec<(usize, String)>, usize) {
    let mut tree: ArenaTree<String> = ArenaTree::default();
    let root = tree.new_node("Root".to_string());
    let mut lengths = vec![];
    let mut num = 0;
    assert!(is_bracketed(&text.to_string()));
    assert!(is_unlabelled(&tree));
    newick2tree(text.to_string(), &mut tree, root, &mut num, &mut lengths);
    assert!(tree.is_well_formed());
    (tree, lengths, num)
}

fn names(tree: &ArenaTree<String>) -> Vec<String> {
    tree.arena.iter().map(|n| n.name.clone()).collect()
}

#[test]
fn labels_count_in_decimal() {
    assert_eq!(node_label(0), "NODE_0");
    assert_eq!(node_label(7), "NODE_7");
    assert_eq!(node_label(10), "NODE_10");
    assert_eq!(node_label(905), "NODE_905");
    assert_eq!(node_label(1234567890), "NODE_1234567890");
    assert_eq!(node_label(usize::MAX), format!("NODE_{}", usize::MAX));
}

#[test]
fn the_first_of_a_character() {
    assert_eq!(find_char("a:b:c", ':'), Some(1));
    assert_eq!(find_char(":", ':'), Some(0));
    assert_eq!(find_char("abc", ':'), None);
    assert_eq!(find_char("", ':'), None);
    assert_eq!(find_char("éé,é", ','), Some(2));
}

#[test]
fn a_tree_of_two_leaves() {
    let (tree, lengths, num) = grown("(A,B);");
    assert_eq!(num, 2);
    assert_eq!(names(&tree), vec!["Undefined", "A", "B"]);
    assert_eq!(tree.arena[0].children, vec![1, 2]);
    assert_eq!(tree.arena[1].parent, Some(0));
    assert_eq!(tree.arena[2].parent, Some(0));
    assert_eq!(tree.arena[1].val, "NODE_1");
    assert_eq!(tree.arena[2].val, "NODE_2");
    assert_eq!(tree.arena[0].val, "Root");
    assert!(lengths.is_empty());
    assert_eq!(tree.arena[2].e, Event::Undef);
    assert_eq!((tree.arena[2].x, tree.arena[2].width), (0, 15));
}

#[test]
fn names_and_lengths() {
    let (tree, lengths, num) = grown("((A:1,B:2.5),(C,D:0.25))root:0.5;");
    assert_eq!(num, 6);
    assert_eq!(
        names(&tree),
        vec!["root", "Undefined", "A", "B", "Undefined", "C", "D"]
    );
    let kids: Vec<Vec<usize>> = tree.arena.iter().map(|n| n.children.clone()).collect();
    assert_eq!(
        kids,
        vec![vec![1, 4], vec![2, 3], vec![], vec![], vec![5, 6], vec![], vec![]]
    );
    let parents: Vec<Option<usize>> = tree.arena.iter().map(|n| n.parent).collect();
    assert_eq!(
        parents,
        vec![None, Some(0), Some(1), Some(1), Some(0), Some(4), Some(4)]
    );
    assert_eq!(
        lengths,
        vec![
            (0, "0.5".to_string()),
            (2, "1".to_string()),
            (3, "2.5".to_string()),
            (6, "0.25".to_string())
        ]
    );
    let vals: Vec<String> = tree.arena.iter().map(|n| n.val.clone()).collect();
    assert_eq!(
        vals,
        vec!["Root", "NODE_1", "NODE_2", "NODE_3", "NODE_4", "NODE_5", "NODE_6"]
    );
}

#[test]
fn a_trail_without_length_names_nothing() {
    let (tree, lengths, _num) = grown("(A,B)root;");
    assert_eq!(names(&tree), vec!["Undefined", "A", "B"]);
    assert!(lengths.is_empty());
}

#[test]
fn a_subtree_loses_its_last_character() {
    // below the root the closing bracket is what is dropped; a name that
    // trails an inner subtree loses its last character instead
    let (tree, lengths, _num) = grown("((A,B)ab:12,C);");
    assert_eq!(names(&tree), vec!["Undefined", "ab", "A", "B", "C"]);
    assert_eq!(lengths, vec![(1, "1".to_string())]);
}

#[test]
fn growing_below_a_node_of_a_tree() {
    let mut tree: ArenaTree<String> = ArenaTree::default();
    let root = tree.new_node("Root".to_string());
    let mut lengths = vec![(9, "kept".to_string())];
    let mut num = 40;
    newick2tree("(A,B);".to_string(), &mut tree, root, &mut num, &mut lengths);
    newick2tree("(C:7,D);".to_string(), &mut tree, 2, &mut num, &mut lengths);
    assert_eq!(num, 44);
    assert_eq!(names(&tree), vec!["Undefined", "A", "B", "C", "D"]);
    assert_eq!(tree.arena[2].children, vec![3, 4]);
    assert_eq!(tree.arena[4].val, "NODE_44");
    assert_eq!(lengths, vec![(9, "kept".to_string()), (3, "7".to_string())]);
    assert!(tree.is_well_formed());
    assert!(!is_unlabelled(&tree));
}

#[test]
fn texts_that_are_trees() {
    for s in ["(A,B);", "((A,B),C);", "((A,B),(C,D))r:1;", "(A,(B,(C,D)));", "(,);", "((A,B)C,D"] {
        assert!(is_bracketed(&s.to_string()), "{}", s);
    }
    for s in ["", "A;", "(A);", "((A,B));", "((A,B)C,", "((A,B),C,D);", "(x(A,B),C);"] {
        assert!(!is_bracketed(&s.to_string()), "{}", s);
    }
}
