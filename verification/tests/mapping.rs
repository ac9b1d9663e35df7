use rectree2svg::bilan_mappings;
use rectree2svg::center_gene_nodes;
use rectree2svg::map_gene_trees;
use rectree2svg::map_species_trees;
use rectree2svg::move_dupli_mappings;
use rectree2svg::set_species_width;
use rectree2svg::ArenaTree;
use rectree2svg::Event;
use rectree2svg::LayoutError;

fn link(tree: &mut ArenaTree<String>, parent: usize, child: usize) {
    tree.arena[parent].children.push(child);
    tree.arena[child].parent = Some(parent);
}

fn named(tree: &mut ArenaTree<String>, name: &str) -> usize {
    let i = tree.new_node(name.to_string());
    tree.arena[i].name = name.to_string();
    i
}

fn gene(tree: &mut ArenaTree<String>, name: &str, location: &str, e: Event) -> usize {
    let i = named(tree, name);
    tree.arena[i].location = location.to_string();
    tree.arena[i].e = e;
    i
}

/// S0 -> (S1, S2), placed by hand.
fn species() -> ArenaTree<String> {
    let mut sp: ArenaTree<String> = ArenaTree::default();
    let s0 = named(&mut sp, "S0");
    let s1 = named(&mut sp, "S1");
    let s2 = named(&mut sp, "S2");
    link(&mut sp, s0, s1);
    link(&mut sp, s0, s2);
    for (n, x, y) in [(s0, 100, 60), (s1, 50, 120), (s2, 150, 120)] {
        sp.arena[n].x = x;
        sp.arena[n].y = y;
    }
    sp
}

/// A speciation in S0 with a leaf in S1 and a leaf in S2.
fn simple_gene(tag: &str) -> ArenaTree<String> {
    let mut g: ArenaTree<String> = ArenaTree::default();
    let n0 = gene(&mut g, &format!("{}0", tag), "S0", Event::Speciation);
    let n1 = gene(&mut g, &format!("{}1", tag), "S1", Event::Leaf);
    let n2 = gene(&mut g, &format!("{}2", tag), "S2", Event::Leaf);
    link(&mut g, n0, n1);
    link(&mut g, n0, n2);
    g
}

fn places(g: &ArenaTree<String>) -> Vec<(i64, i64)> {
    g.arena.iter().map(|n| (n.x, n.y)).collect()
}

#[test]
fn gene_nodes_go_where_their_species_stands() {
    let mut sp = species();
    let mut genes = vec![simple_gene("a"), simple_gene("b")];
    genes[1].arena[0].location = "S2".to_string();
    assert_eq!(map_gene_trees(&mut sp, &mut genes), Ok(()));
    assert_eq!(places(&genes[0]), vec![(100, 60), (50, 120), (150, 120)]);
    assert_eq!(places(&genes[1]), vec![(150, 120), (50, 120), (150, 120)]);
    assert_eq!(places(&sp), vec![(100, 60), (50, 120), (150, 120)]);
}

#[test]
fn the_last_species_node_of_a_name_wins() {
    let mut sp = species();
    sp.arena[2].name = "S1".to_string();
    let mut genes = vec![simple_gene("a")];
    genes[0].arena[2].location = "S1".to_string();
    assert_eq!(map_gene_trees(&mut sp, &mut genes), Ok(()));
    assert_eq!(places(&genes[0]), vec![(100, 60), (150, 120), (150, 120)]);
}

#[test]
fn an_unknown_location_is_refused() {
    let mut sp = species();
    let mut genes = vec![simple_gene("a"), simple_gene("b")];
    genes[1].arena[2].location = "S9".to_string();
    assert_eq!(map_gene_trees(&mut sp, &mut genes), Err(LayoutError::UnmappedGeneNode(1, 2)));
    assert_eq!(places(&genes[0]), vec![(0, 0), (0, 0), (0, 0)]);
    assert_eq!(map_species_trees(&mut sp, &mut genes), Err(LayoutError::UnmappedGeneNode(1, 2)));
    genes[0].arena[1].location = "nowhere".to_string();
    genes[0].arena[2].location = "nowhere".to_string();
    assert_eq!(map_gene_trees(&mut sp, &mut genes), Err(LayoutError::UnmappedGeneNode(0, 1)));
    assert!(sp.arena.iter().all(|n| n.nbg == 0 && n.nodes.is_empty()));
}

#[test]
fn no_gene_tree_is_no_error() {
    let mut sp = species();
    let mut genes: Vec<ArenaTree<String>> = vec![];
    assert_eq!(map_gene_trees(&mut sp, &mut genes), Ok(()));
    assert_eq!(map_species_trees(&mut sp, &mut genes), Ok(()));
    assert!(sp.arena.iter().all(|n| n.nbg == 0 && n.nodes.is_empty()));
}

#[test]
fn species_nodes_list_their_gene_nodes_in_order() {
    let mut sp = species();
    let mut genes = vec![simple_gene("a"), simple_gene("b")];
    genes[0].arena[0].location = "S1".to_string();
    genes[1].arena[1].location = "S0".to_string();
    sp.arena[1].nodes.push((7, 7));
    sp.arena[1].nbg = 5;
    assert_eq!(map_species_trees(&mut sp, &mut genes), Ok(()));
    assert_eq!(sp.arena[0].nodes, vec![(1, 0), (1, 1)]);
    assert_eq!(sp.arena[1].nodes, vec![(7, 7), (0, 0), (0, 1)]);
    assert_eq!(sp.arena[2].nodes, vec![(0, 2), (1, 2)]);
    assert_eq!(sp.arena[0].nbg, 2);
    assert_eq!(sp.arena[1].nbg, 7);
    assert_eq!(sp.arena[2].nbg, 2);
    assert_eq!(places(&sp), vec![(100, 60), (50, 120), (150, 120)]);
    assert_eq!(places(&genes[0]), vec![(0, 0), (0, 0), (0, 0)]);
}

#[test]
fn every_species_node_of_a_name_takes_the_gene_node() {
    let mut sp = species();
    sp.arena[2].name = "S1".to_string();
    let mut genes = vec![simple_gene("a")];
    genes[0].arena[2].location = "S1".to_string();
    assert_eq!(map_species_trees(&mut sp, &mut genes), Ok(()));
    assert_eq!(sp.arena[1].nodes, vec![(0, 1), (0, 2)]);
    assert_eq!(sp.arena[2].nodes, vec![(0, 1), (0, 2)]);
}

/// Three gene trees, each with a speciation in S0 and leaves in S1 and S2,
/// mapped both ways.
fn mapped() -> (ArenaTree<String>, Vec<ArenaTree<String>>) {
    let mut sp = species();
    let mut genes = vec![simple_gene("a"), simple_gene("b"), simple_gene("c")];
    assert_eq!(map_species_trees(&mut sp, &mut genes), Ok(()));
    set_species_width(&mut sp);
    assert_eq!(map_gene_trees(&mut sp, &mut genes), Ok(()));
    (sp, genes)
}

#[test]
fn spread_under_a_left_child_a_right_child_and_the_root() {
    let (mut sp, mut genes) = mapped();
    assert_eq!(bilan_mappings(&mut sp, &mut genes, 0), Ok(()));
    // S0 is no left child: from the far end back; down one unit each
    assert_eq!(genes[0].arena[0].x, 100 + 30);
    assert_eq!(genes[1].arena[0].x, 100 + 15);
    assert_eq!(genes[2].arena[0].x, 100);
    assert_eq!(genes[0].arena[0].y, 60);
    assert_eq!(genes[1].arena[0].y, 60 + 15);
    assert_eq!(genes[2].arena[0].y, 60 + 30);
    // S1 is a left child
    assert_eq!(places(&genes[0])[1], (50, 120));
    assert_eq!(places(&genes[1])[1], (65, 135));
    assert_eq!(places(&genes[2])[1], (80, 150));
    // S2 is a right child
    assert_eq!(places(&genes[0])[2], (180, 120));
    assert_eq!(places(&genes[1])[2], (165, 135));
    assert_eq!(places(&genes[2])[2], (150, 150));
    assert_eq!(places(&sp), vec![(100, 60), (50, 120), (150, 120)]);
}

#[test]
fn spread_of_a_subtree_only() {
    let (mut sp, mut genes) = mapped();
    assert_eq!(bilan_mappings(&mut sp, &mut genes, 1), Ok(()));
    assert_eq!(places(&genes[1]), vec![(100, 60), (65, 135), (150, 120)]);
    assert_eq!(places(&genes[2]), vec![(100, 60), (80, 150), (150, 120)]);
}

#[test]
fn events_that_hang_from_their_parent() {
    let mut sp = species();
    let mut g: ArenaTree<String> = ArenaTree::default();
    let top = gene(&mut g, "top", "S0", Event::Speciation);
    let dup = gene(&mut g, "dup", "S1", Event::Duplication);
    let loss = gene(&mut g, "loss", "S2", Event::Loss);
    let l1 = gene(&mut g, "l1", "S1", Event::Leaf);
    let bif = gene(&mut g, "bif", "S1", Event::BifurcationOut);
    let out = gene(&mut g, "out", "S1", Event::BranchingOut);
    let l2 = gene(&mut g, "l2", "S1", Event::Leaf);
    let back = gene(&mut g, "back", "S1", Event::TransferBack);
    let tr = gene(&mut g, "tr", "S1", Event::Transfer);
    let un = gene(&mut g, "un", "S1", Event::Undef);
    link(&mut g, top, dup);
    link(&mut g, top, loss);
    link(&mut g, dup, l1);
    link(&mut g, dup, bif);
    link(&mut g, bif, out);
    link(&mut g, bif, l2);
    link(&mut g, out, back);
    link(&mut g, out, tr);
    link(&mut g, tr, un);
    let mut genes = vec![g];
    assert_eq!(map_species_trees(&mut sp, &mut genes), Ok(()));
    assert_eq!(map_gene_trees(&mut sp, &mut genes), Ok(()));
    assert_eq!(sp.arena[1].nbg, 8);
    assert_eq!(bilan_mappings(&mut sp, &mut genes, 0), Ok(()));
    let g = &genes[0];
    // S0: top alone, S0 is no left child and holds one gene
    assert_eq!((g.arena[top].x, g.arena[top].y), (100, 60));
    // S1, a left child: dup, l1, bif, out, l2, back are spread in turn;
    // tr and un are left alone and take no turn
    assert_eq!((g.arena[dup].x, g.arena[dup].y), (50, 60 + 12));
    assert_eq!((g.arena[l1].x, g.arena[l1].y), (65, 135));
    assert_eq!((g.arena[bif].x, g.arena[bif].y), (80, 72 + 12));
    assert_eq!((g.arena[out].x, g.arena[out].y), (95, 84 + 15));
    assert_eq!((g.arena[l2].x, g.arena[l2].y), (110, 120 + 60));
    assert_eq!((g.arena[back].x, g.arena[back].y), (125, 120 + 75));
    assert_eq!((g.arena[tr].x, g.arena[tr].y), (50, 120));
    assert_eq!((g.arena[un].x, g.arena[un].y), (50, 120));
    // S2, a right child with one gene
    assert_eq!((g.arena[loss].x, g.arena[loss].y), (150, 60 + 15));
}

#[test]
fn a_hanging_event_without_parent_is_refused() {
    for e in [Event::Duplication, Event::BifurcationOut, Event::Loss, Event::BranchingOut] {
        let mut sp = species();
        let mut genes = vec![simple_gene("a"), simple_gene("b")];
        genes[1].arena[0].e = e;
        assert_eq!(map_species_trees(&mut sp, &mut genes), Ok(()));
        assert_eq!(map_gene_trees(&mut sp, &mut genes), Ok(()));
        let before = places(&genes[0]);
        assert_eq!(
            bilan_mappings(&mut sp, &mut genes, 0),
            Err(LayoutError::MissingParentForEventNode(1, 0))
        );
        assert_eq!(places(&genes[0]), before);
        // the subtree of S1 holds no such node
        assert_eq!(bilan_mappings(&mut sp, &mut genes, 1), Ok(()));
    }
}

#[test]
fn spread_refuses_a_species_node_with_one_child() {
    let (mut sp, mut genes) = mapped();
    let extra = named(&mut sp, "S3");
    link(&mut sp, 2, extra);
    assert_eq!(bilan_mappings(&mut sp, &mut genes, 0), Err(LayoutError::NonBinaryNode(2)));
    assert_eq!(center_gene_nodes(&mut sp, &mut genes, 0), Err(LayoutError::NonBinaryNode(2)));
    assert_eq!(move_dupli_mappings(&mut sp, &mut genes, 0), Err(LayoutError::NonBinaryNode(2)));
    assert_eq!(places(&genes[0]), vec![(100, 60), (50, 120), (150, 120)]);
    assert_eq!(bilan_mappings(&mut sp, &mut genes, 1), Ok(()));
}

#[test]
fn groups_are_centred_in_their_pipe() {
    let (mut sp, mut genes) = mapped();
    assert_eq!(bilan_mappings(&mut sp, &mut genes, 0), Ok(()));
    assert_eq!(sp.arena[1].width, 45);
    assert_eq!(center_gene_nodes(&mut sp, &mut genes, 0), Ok(()));
    // in S1 the group runs from 50 to 80 and from 120 to 150; the pipe has
    // its middle at (50, 120): back by 15 both ways
    assert_eq!(places(&genes[0])[1], (35, 105));
    assert_eq!(places(&genes[1])[1], (50, 120));
    assert_eq!(places(&genes[2])[1], (65, 135));
    // in S2 the group runs from 150 to 180
    assert_eq!(places(&genes[0])[2], (165, 105));
    assert_eq!(places(&genes[1])[2], (150, 120));
    assert_eq!(places(&genes[2])[2], (135, 135));
    // in S0 from 100 to 130 and from 60 to 90
    assert_eq!(places(&genes[0])[0], (115, 45));
    assert_eq!(places(&genes[1])[0], (100, 60));
    assert_eq!(places(&genes[2])[0], (85, 75));
}

#[test]
fn centring_counts_the_modifier_of_the_species_node() {
    let mut sp = species();
    sp.arena[1].ymod = 40;
    sp.arena[1].width = 31;
    sp.arena[1].height = 21;
    let mut g: ArenaTree<String> = ArenaTree::default();
    let n = gene(&mut g, "n", "S1", Event::Leaf);
    g.arena[n].x = 7;
    g.arena[n].y = -9;
    g.arena[n].ymod = -4;
    sp.arena[1].nodes.push((0, n));
    let mut genes = vec![g];
    assert_eq!(center_gene_nodes(&mut sp, &mut genes, 1), Ok(()));
    assert_eq!(places(&genes[0]), vec![(50, 160)]);
    assert_eq!(genes[0].arena[n].ymod, -4);
}

#[test]
fn an_empty_species_node_moves_nothing() {
    let mut sp = species();
    let mut genes = vec![simple_gene("a")];
    assert_eq!(center_gene_nodes(&mut sp, &mut genes, 0), Ok(()));
    assert_eq!(bilan_mappings(&mut sp, &mut genes, 0), Ok(()));
    assert_eq!(move_dupli_mappings(&mut sp, &mut genes, 0), Ok(()));
    assert_eq!(places(&genes[0]), vec![(0, 0), (0, 0), (0, 0)]);
}

#[test]
fn duplication_anchoring() {
    let mut sp = species();
    let mut g: ArenaTree<String> = ArenaTree::default();
    let top = gene(&mut g, "top", "S0", Event::Speciation);
    let dup = gene(&mut g, "dup", "S1", Event::Duplication);
    let other = gene(&mut g, "other", "S2", Event::Leaf);
    let l1 = gene(&mut g, "l1", "S1", Event::Leaf);
    let l2 = gene(&mut g, "l2", "S1", Event::Leaf);
    link(&mut g, top, dup);
    link(&mut g, top, other);
    link(&mut g, dup, l1);
    link(&mut g, dup, l2);
    let mut genes = vec![g, simple_gene("b")];
    assert_eq!(map_species_trees(&mut sp, &mut genes), Ok(()));
    set_species_width(&mut sp);
    assert_eq!(map_gene_trees(&mut sp, &mut genes), Ok(()));
    assert_eq!(bilan_mappings(&mut sp, &mut genes, 0), Ok(()));
    assert_eq!(center_gene_nodes(&mut sp, &mut genes, 0), Ok(()));
    assert!(genes[0].arena[dup].x != genes[0].arena[l1].x);
    assert_eq!(move_dupli_mappings(&mut sp, &mut genes, 0), Ok(()));
    assert_eq!(genes[0].arena[dup].x, genes[0].arena[l1].x);
    // S1 holds dup, l1, l2 and a leaf of the second tree: 60 thick
    assert_eq!(sp.arena[1].height, 60);
    for n in [l1, l2] {
        assert_eq!(genes[0].arena[n].y, 120 + 30);
        assert_eq!(genes[0].arena[n].ymod, 0);
    }
    assert_eq!(genes[1].arena[1].y, 150);
    assert_eq!(genes[1].arena[2].y, 120 + 15);
}

#[test]
fn nested_duplications_end_on_one_branch() {
    let mut sp = species();
    let mut g: ArenaTree<String> = ArenaTree::default();
    let d1 = gene(&mut g, "d1", "S1", Event::Duplication);
    let d2 = gene(&mut g, "d2", "S1", Event::Duplication);
    let leaf = gene(&mut g, "leaf", "S1", Event::Leaf);
    let l2 = gene(&mut g, "l2", "S1", Event::Leaf);
    let l3 = gene(&mut g, "l3", "S1", Event::Leaf);
    link(&mut g, d1, d2);
    link(&mut g, d1, l3);
    link(&mut g, d2, leaf);
    link(&mut g, d2, l2);
    g.arena[d1].x = 1;
    g.arena[d2].x = 2;
    g.arena[leaf].x = 3;
    g.arena[leaf].ymod = -8;
    let mut genes = vec![g];
    // the inner duplication is listed first
    sp.arena[1].nodes = vec![(0, d2), (0, d1), (0, leaf)];
    assert_eq!(move_dupli_mappings(&mut sp, &mut genes, 1), Ok(()));
    assert_eq!(genes[0].arena[d2].x, 3);
    assert_eq!(genes[0].arena[d1].x, 3);
    assert_eq!(genes[0].arena[leaf].x, 3);
    assert_eq!(genes[0].arena[leaf].y, 120 + 7);
    assert_eq!(genes[0].arena[leaf].ymod, 0);
    // the outer duplication is listed first: it ends where the inner one
    // ends all the same
    genes[0].arena[d1].x = 1;
    genes[0].arena[d2].x = 2;
    sp.arena[1].nodes = vec![(0, d1), (0, d2)];
    assert_eq!(move_dupli_mappings(&mut sp, &mut genes, 0), Ok(()));
    assert_eq!(genes[0].arena[d1].x, 3);
    assert_eq!(genes[0].arena[d2].x, 3);
}

#[test]
fn a_duplication_over_a_duplication_takes_its_final_place() {
    let mut sp: ArenaTree<String> = ArenaTree::default();
    let s = named(&mut sp, "S");
    sp.arena[s].nbg = 5;
    sp.arena[s].nodes = vec![(0, 0), (0, 1), (0, 2), (0, 3), (0, 4)];
    let mut g: ArenaTree<String> = ArenaTree::default();
    for (k, e) in [Event::Duplication, Event::Duplication, Event::Leaf, Event::Leaf, Event::Leaf]
        .into_iter()
        .enumerate()
    {
        let n = gene(&mut g, &format!("n{}", k), "S", e);
        g.arena[n].x = 10 * (k as i64 + 1);
    }
    link(&mut g, 0, 1);
    link(&mut g, 0, 4);
    link(&mut g, 1, 2);
    link(&mut g, 1, 3);
    let mut genes = vec![g];
    assert_eq!(move_dupli_mappings(&mut sp, &mut genes, 0), Ok(()));
    let xs: Vec<i64> = genes[0].arena.iter().map(|n| n.x).collect();
    assert_eq!(xs, vec![30, 30, 30, 40, 50]);
}

#[test]
fn an_unlisted_duplication_stays_and_holds_what_is_above_it() {
    let mut sp = species();
    let mut g: ArenaTree<String> = ArenaTree::default();
    let d1 = gene(&mut g, "d1", "S1", Event::Duplication);
    let d2 = gene(&mut g, "d2", "S2", Event::Duplication);
    let leaf = gene(&mut g, "leaf", "S2", Event::Leaf);
    link(&mut g, d1, d2);
    link(&mut g, d2, leaf);
    g.arena[d1].x = 1;
    g.arena[d2].x = 2;
    g.arena[leaf].x = 3;
    g.arena[leaf].y = 9;
    let mut genes = vec![g];
    sp.arena[1].nodes = vec![(0, d1)];
    sp.arena[2].nodes = vec![(0, d2), (0, leaf)];
    // within the subtree of S1 only d1 is listed
    assert_eq!(move_dupli_mappings(&mut sp, &mut genes, 1), Ok(()));
    assert_eq!(places(&genes[0]), vec![(2, 0), (2, 0), (3, 9)]);
    // a duplication without a child is left alone
    let mut lone: ArenaTree<String> = ArenaTree::default();
    let d = gene(&mut lone, "d", "S1", Event::Duplication);
    lone.arena[d].x = 4;
    let mut genes = vec![lone];
    sp.arena[1].nodes = vec![(0, d)];
    sp.arena[2].nodes = vec![];
    assert_eq!(move_dupli_mappings(&mut sp, &mut genes, 0), Ok(()));
    assert_eq!(places(&genes[0]), vec![(4, 0)]);
}

#[test]
fn a_loss_listed_before_its_parent_ends_below_it() {
    let mut sp: ArenaTree<String> = ArenaTree::default();
    let s = named(&mut sp, "S");
    let mut g: ArenaTree<String> = ArenaTree::default();
    let parent = gene(&mut g, "p", "S", Event::Speciation);
    let loss = gene(&mut g, "l", "S", Event::Loss);
    let other = gene(&mut g, "o", "S", Event::Leaf);
    link(&mut g, parent, loss);
    link(&mut g, parent, other);
    sp.arena[s].nbg = 2;
    sp.arena[s].nodes = vec![(0, loss), (0, parent)];
    let mut genes = vec![g];
    assert_eq!(bilan_mappings(&mut sp, &mut genes, 0), Ok(()));
    // the root is no left child: the loss goes one unit along, its parent,
    // spread second, one unit down; the loss hangs below where that ends
    assert_eq!(places(&genes[0]), vec![(0, 15), (15, 30), (0, 0)]);
}

#[test]
fn a_chain_of_hanging_events_follows_its_top() {
    let mut sp = species();
    let mut g: ArenaTree<String> = ArenaTree::default();
    let top = gene(&mut g, "top", "S2", Event::Speciation);
    let dup = gene(&mut g, "dup", "S1", Event::Duplication);
    let out = gene(&mut g, "out", "S1", Event::BranchingOut);
    let bare = gene(&mut g, "bare", "S0", Event::Loss);
    link(&mut g, top, dup);
    link(&mut g, dup, out);
    link(&mut g, out, bare);
    let mut genes = vec![g];
    assert_eq!(map_species_trees(&mut sp, &mut genes), Ok(()));
    assert_eq!(map_gene_trees(&mut sp, &mut genes), Ok(()));
    // S1 is visited before S2, where the top of the chain is spread; only
    // the subtree of S1 is asked for, so `bare` and `top` stay
    genes[0].arena[top].y = 7;
    assert_eq!(bilan_mappings(&mut sp, &mut genes, 1), Ok(()));
    assert_eq!(genes[0].arena[dup].y, 7 + 12);
    assert_eq!(genes[0].arena[out].y, 7 + 12 + 15);
    assert_eq!(genes[0].arena[bare].y, 60);
    assert_eq!(genes[0].arena[top].y, 7);
    assert_eq!(genes[0].arena[dup].x, 50);
    assert_eq!(genes[0].arena[out].x, 65);
}

#[test]
fn a_group_left_of_zero_is_centred_and_stays() {
    let mut sp: ArenaTree<String> = ArenaTree::default();
    let s = named(&mut sp, "S");
    sp.arena[s].x = -5;
    sp.arena[s].y = -7;
    sp.arena[s].nbg = 2;
    let mut g: ArenaTree<String> = ArenaTree::default();
    let a = gene(&mut g, "a", "S", Event::Leaf);
    let b = gene(&mut g, "b", "S", Event::Leaf);
    g.arena[a].x = -5;
    g.arena[b].x = 10;
    g.arena[a].y = -4;
    g.arena[b].y = -1;
    sp.arena[s].nodes = vec![(0, a), (0, b)];
    let mut genes = vec![g];
    assert_eq!(center_gene_nodes(&mut sp, &mut genes, 0), Ok(()));
    // the middle of -5 and 10, rounded downwards, is 2: back by 7; that of
    // -4 and -1 is -3: back by 4
    assert_eq!(places(&genes[0]), vec![(-12, -8), (3, -5)]);
    assert_eq!((-12 + 3_i64).div_euclid(2), sp.arena[s].x);
    assert_eq!((-8 + -5_i64).div_euclid(2), sp.arena[s].y + sp.arena[s].ymod);
    assert_eq!(center_gene_nodes(&mut sp, &mut genes, 0), Ok(()));
    assert_eq!(places(&genes[0]), vec![(-12, -8), (3, -5)]);
}

#[test]
fn every_gene_node_is_listed_once_where_its_location_says() {
    let mut sp = species();
    let mut genes = vec![simple_gene("a"), simple_gene("b"), simple_gene("c")];
    genes[1].arena[0].location = "S2".to_string();
    genes[2].arena[2].location = "S0".to_string();
    assert_eq!(map_species_trees(&mut sp, &mut genes), Ok(()));
    let mut seen: Vec<(usize, usize)> = vec![];
    for s in sp.arena.iter() {
        assert_eq!(s.nbg, s.nodes.len());
        for &(g, i) in s.nodes.iter() {
            assert_eq!(genes[g].arena[i].location, s.name);
            assert!(!seen.contains(&(g, i)));
            seen.push((g, i));
        }
    }
    assert_eq!(seen.len(), 9);
    assert_eq!(sp.arena.iter().map(|s| s.nbg).sum::<usize>(), 9);
    assert_eq!(sp.arena[0].nodes, vec![(0, 0), (2, 0), (2, 2)]);
    assert_eq!(sp.arena[2].nodes, vec![(0, 2), (1, 0), (1, 2)]);
}

#[test]
fn a_subtree_with_an_odd_node_is_refused_whatever_its_size() {
    let mut sp = species();
    let extra = named(&mut sp, "S3");
    link(&mut sp, 1, extra);
    // far outside the limits, and lists that name no gene node
    sp.arena[0].x = i64::MAX;
    sp.arena[1].nodes = vec![(9, 9)];
    let mut genes = vec![simple_gene("a")];
    genes[0].arena[0].x = i64::MIN;
    let before = places(&genes[0]);
    assert_eq!(bilan_mappings(&mut sp, &mut genes, 0), Err(LayoutError::NonBinaryNode(1)));
    assert_eq!(center_gene_nodes(&mut sp, &mut genes, 0), Err(LayoutError::NonBinaryNode(1)));
    assert_eq!(move_dupli_mappings(&mut sp, &mut genes, 0), Err(LayoutError::NonBinaryNode(1)));
    assert_eq!(places(&genes[0]), before);
}

#[test]
fn a_leaf_listed_twice_goes_to_the_last_pipe() {
    let mut sp = species();
    sp.arena[2].y = 200;
    let mut g: ArenaTree<String> = ArenaTree::default();
    let leaf = gene(&mut g, "leaf", "S1", Event::Leaf);
    let other = gene(&mut g, "other", "S1", Event::Leaf);
    g.arena[leaf].ymod = -3;
    g.arena[other].y = 5;
    let mut genes = vec![g];
    sp.arena[2].nodes = vec![(0, leaf)];
    sp.arena[1].nodes = vec![(0, other), (0, leaf)];
    assert_eq!(move_dupli_mappings(&mut sp, &mut genes, 0), Ok(()));
    assert_eq!(genes[0].arena[leaf].y, 200 + 7);
    assert_eq!(genes[0].arena[leaf].ymod, 0);
    assert_eq!(genes[0].arena[other].y, 120 + 7);
    // within the subtree of S1, only S1 lists it
    assert_eq!(move_dupli_mappings(&mut sp, &mut genes, 1), Ok(()));
    assert_eq!(genes[0].arena[leaf].y, 120 + 7);
}
