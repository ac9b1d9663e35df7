use rectree2svg::check_for_obsolete;
use rectree2svg::find_first_clade;
use rectree2svg::find_rgtrees;
use rectree2svg::find_sptree;
use rectree2svg::knuth_layout;
use rectree2svg::map_gene_trees;
use rectree2svg::map_species_trees;
use rectree2svg::taxon::add_taxon;
use rectree2svg::xml2tree;
use rectree2svg::ArenaTree;
use rectree2svg::Event;
use rectree2svg::ReadError;
use rectree2svg::RepairError;
use rectree2svg::XmlDoc;
use rectree2svg::XmlNode;

fn model(text: &str) -> XmlDoc {
    let doc = roxmltree::Document::parse(text).unwrap();
    let mut nodes = Vec::new();
    for (position, node) in doc.descendants().enumerate() {
        assert_eq!(node.id().get_usize(), position);
        nodes.push(XmlNode {
            tag: if node.is_element() {
                node.tag_name().name().to_string()
            } else {
                String::new()
            },
            attributes: node
                .attributes()
                .iter()
                .map(|a| (a.name().to_string(), a.value().to_string()))
                .collect(),
            text: node.text().map(|t| t.to_string()),
            children: node.children().map(|c| c.id().get_usize()).collect(),
        });
    }
    XmlDoc { nodes }
}

fn first_clade_below(doc: &XmlDoc, node: usize) -> usize {
    let mut open = vec![node];
    while let Some(n) = open.pop() {
        if doc.nodes[n].tag == "clade" {
            return n;
        }
        open.extend(doc.nodes[n].children.iter().rev());
    }
    panic!("no clade");
}

fn read(doc: &XmlDoc, clade: usize) -> Result<(ArenaTree<String>, Vec<usize>, usize), ReadError> {
    let mut tree: ArenaTree<String> = ArenaTree::default();
    let root = tree.new_node("Root".to_string());
    let mut obsolete = vec![];
    let mut numero = 0;
    assert!(doc.is_ordered());
    xml2tree(doc, clade, root, &mut numero, &mut tree, &mut obsolete)?;
    Ok((tree, obsolete, numero))
}

fn names(tree: &ArenaTree<String>) -> Vec<String> {
    tree.arena.iter().map(|n| n.name.clone()).collect()
}

const RECONCILED: &str = r#"<recPhylo>
  <spTree>
    <phylogeny>
      <clade>
        <name>S0</name>
        <clade><name>S1</name></clade>
        <clade><name>S2</name></clade>
      </clade>
    </phylogeny>
  </spTree>
  <recGeneTree>
    <phylogeny rooted="true">
      <clade>
        <name>g0</name>
        <eventsRec><speciation speciesLocation="S0"/></eventsRec>
        <clade>
          <name>g1</name>
          <eventsRec><leaf speciesLocation="S1" geneName="gene1"/></eventsRec>
        </clade>
        <clade>
          <name>g2</name>
          <eventsRec>
            <transferBack destinationSpecies="S2"/>
            <leaf geneName="gene2" speciesLocation="S2"/>
          </eventsRec>
        </clade>
      </clade>
    </phylogeny>
  </recGeneTree>
  <recGeneTree>
    <phylogeny>
      <clade>
        <id>h0</id>
        <eventsRec><duplication speciesLocation="S1"/></eventsRec>
        <clade><name>h1</name><eventsRec><loss speciesLocation="S1"/></eventsRec></clade>
        <clade>
          <name>h2</name>
          <eventsRec><branchingOut speciesLocation="S1"/></eventsRec>
          <clade><name>h3</name><eventsRec><bifurcationOut/></eventsRec></clade>
          <clade><name><b/></name><eventsRec><leaf speciesLocation="S1"/></eventsRec></clade>
        </clade>
      </clade>
    </phylogeny>
  </recGeneTree>
</recPhylo>"#;

#[test]
fn tags_are_found_in_document_order() {
    let mut doc = model(RECONCILED);
    let sp = find_sptree(&mut doc).unwrap();
    assert_eq!(doc.nodes[sp].tag, "spTree");
    let clade = find_first_clade(&mut doc).unwrap();
    assert_eq!(clade, first_clade_below(&doc, sp));
    let genes = find_rgtrees(&mut doc).unwrap();
    assert_eq!(genes.len(), 2);
    assert!(genes[0] < genes[1]);
    assert!(genes.iter().all(|g| doc.nodes[*g].tag == "recGeneTree"));
    assert_eq!(doc.find_tag("nothing"), None);
    assert_eq!(doc.find_tags("clade").len(), 3 + 3 + 5);
    let mut plain = model("<a><b/></a>");
    assert_eq!(find_sptree(&mut plain), Err(0));
    assert_eq!(find_first_clade(&mut plain), Err(0));
    assert_eq!(find_rgtrees(&mut plain), Err(0));
    assert!(plain.is_ordered());
    plain.nodes[2].children.push(1);
    assert!(!plain.is_ordered());
}

#[test]
fn a_species_tree_is_read() {
    let mut doc = model(RECONCILED);
    let clade = find_first_clade(&mut doc).unwrap();
    let (tree, obsolete, numero) = read(&doc, clade).unwrap();
    assert_eq!(numero, 2);
    assert!(obsolete.is_empty());
    assert_eq!(names(&tree), vec!["S0", "S1", "S2"]);
    assert_eq!(tree.arena[0].children, vec![1, 2]);
    assert_eq!(tree.arena[1].val, "N1");
    assert_eq!(tree.arena[2].val, "N2");
    assert_eq!(tree.arena[2].parent, Some(0));
    assert!(tree.is_well_formed());
    assert!(tree.arena.iter().all(|n| n.e == Event::Undef && n.location == "Undefined"));
}

#[test]
fn gene_trees_are_read_with_their_events() {
    let mut doc = model(RECONCILED);
    let genes = find_rgtrees(&mut doc).unwrap();
    let (tree, _obsolete, numero) = read(&doc, first_clade_below(&doc, genes[0])).unwrap();
    assert_eq!(numero, 2);
    assert_eq!(names(&tree), vec!["g0", "gene1", "gene2"]);
    let events: Vec<Event> = tree.arena.iter().map(|n| n.e).collect();
    assert_eq!(events, vec![Event::Speciation, Event::Leaf, Event::Leaf]);
    let places: Vec<&str> = tree.arena.iter().map(|n| n.location.as_str()).collect();
    assert_eq!(places, vec!["S0", "S1", "S2"]);
    let transfers: Vec<bool> = tree.arena.iter().map(|n| n.is_a_transfert).collect();
    assert_eq!(transfers, vec![false, false, true]);

    let (tree, _obsolete, numero) = read(&doc, first_clade_below(&doc, genes[1])).unwrap();
    assert_eq!(numero, 4);
    assert_eq!(names(&tree), vec!["h0", "h1", "h2", "h3", "Unkwnown"]);
    let events: Vec<Event> = tree.arena.iter().map(|n| n.e).collect();
    assert_eq!(
        events,
        vec![
            Event::Duplication,
            Event::Loss,
            Event::BranchingOut,
            Event::BifurcationOut,
            Event::Leaf
        ]
    );
    assert_eq!(tree.arena[3].location, "S1");
    assert!(tree.arena[3].is_a_transfert);
    assert_eq!(tree.arena[2].children, vec![3, 4]);
    assert!(tree.is_well_formed());
}

#[test]
fn read_trees_can_be_mapped() {
    let mut doc = model(RECONCILED);
    let clade = find_first_clade(&mut doc).unwrap();
    let (mut sp, _, _) = read(&doc, clade).unwrap();
    let genes = find_rgtrees(&mut doc).unwrap();
    let mut gene_trees = vec![];
    for g in genes {
        gene_trees.push(read(&doc, first_clade_below(&doc, g)).unwrap().0);
    }
    assert_eq!(knuth_layout(&mut sp, 0, &mut 1), Ok(()));
    assert_eq!(map_species_trees(&mut sp, &mut gene_trees), Ok(()));
    assert_eq!(map_gene_trees(&mut sp, &mut gene_trees), Ok(()));
    assert_eq!(sp.arena[0].nodes, vec![(0, 0)]);
    assert_eq!(sp.arena[1].nodes, vec![(0, 1), (1, 0), (1, 1), (1, 2), (1, 3), (1, 4)]);
    assert_eq!(sp.arena[2].nodes, vec![(0, 2)]);
    assert_eq!(gene_trees[0].arena[2].x, 60);
    assert_eq!(gene_trees[0].arena[2].y, 120);
}

fn failing(events: &str) -> ReadError {
    let text = format!(
        "<clade><name>a</name><clade><name>b</name><eventsRec>{}</eventsRec></clade></clade>",
        events
    );
    let doc = model(&text);
    read(&doc, 1).unwrap_err()
}

#[test]
fn documents_that_cannot_be_read() {
    assert_eq!(failing("<loss/>"), ReadError::BadAttributes);
    assert_eq!(failing(r#"<loss other="x" speciesLocation="S"/>"#), ReadError::BadAttributes);
    assert_eq!(failing(r#"<leaf geneName="g"/>"#), ReadError::BadAttributes);
    assert_eq!(
        failing(r#"<leaf speciesLocation="S" geneName="g" more="m"/>"#),
        ReadError::BadAttributes
    );
    assert_eq!(failing(r#"<leaf speciesLocation="S" other="g"/>"#), ReadError::BadAttributes);
    assert_eq!(failing(r#"<transferBack speciesLocation="S"/>"#), ReadError::BadAttributes);
    assert_eq!(failing("<speciationOut/>"), ReadError::ObsoleteTag);
    assert_eq!(failing(r#"<speciationOutLoss speciesLocation="S"/>"#), ReadError::ObsoleteTag);
    assert_eq!(
        failing(r#"<speciationLoss speciesLocation="S"/><speciation speciesLocation="S"/>"#),
        ReadError::OldFormat
    );
    assert_eq!(failing("<speciationLoss/>"), ReadError::BadAttributes);
    let doc = model("<clade><name/></clade>");
    assert_eq!(read(&doc, 1).unwrap_err(), ReadError::NoText);
    let doc = model("<clade><eventsRec><bifurcationOut/></eventsRec></clade>");
    assert_eq!(read(&doc, 1).unwrap_err(), ReadError::OrphanBifurcation);
    let doc = model(r#"<clade><eventsRec><speciationLoss speciesLocation="S"/></eventsRec></clade>"#);
    assert_eq!(read(&doc, 1).unwrap_err(), ReadError::NoParent);
    // a value that is held already
    let doc = model("<clade><clade/></clade>");
    let mut tree: ArenaTree<String> = ArenaTree::default();
    let root = tree.new_node("N1".to_string());
    assert_eq!(
        xml2tree(&doc, 1, root, &mut 0, &mut tree, &mut vec![]),
        Err(ReadError::DuplicateNode)
    );
    assert_eq!(
        xml2tree(&doc, 1, root, &mut usize::MAX, &mut tree, &mut vec![]),
        Err(ReadError::TooLarge)
    );
    assert_eq!(xml2tree(&doc, 1, root, &mut 1, &mut tree, &mut vec![]), Ok(()));
    assert_eq!(tree.arena[1].val, "N2");
}

const OLD: &str = r#"<recPhylo>
  <spTree><phylogeny><clade><name>S0</name>
      <clade><name>S1</name></clade>
      <clade><name>S2</name></clade>
  </clade></phylogeny></spTree>
  <recGeneTree><phylogeny><clade>
      <name>top</name>
      <eventsRec><speciation speciesLocation="S0"/></eventsRec>
      <clade>
        <name>d</name>
        <eventsRec>
          <speciationLoss speciesLocation="S0"/>
          <duplication speciesLocation="S1"/>
        </eventsRec>
        <clade><name>a</name><eventsRec><leaf speciesLocation="S1"/></eventsRec></clade>
        <clade><name>b</name><eventsRec><leaf speciesLocation="S1"/></eventsRec></clade>
      </clade>
      <clade><name>x</name><eventsRec><leaf speciesLocation="S2"/></eventsRec></clade>
  </clade></phylogeny></recGeneTree>
</recPhylo>"#;

#[test]
fn the_old_format_is_put_right() {
    let mut doc = model(OLD);
    let clade = find_first_clade(&mut doc).unwrap();
    let (mut sp, _, _) = read(&doc, clade).unwrap();
    let genes = find_rgtrees(&mut doc).unwrap();
    let (mut gene, obsolete, numero) = read(&doc, first_clade_below(&doc, genes[0])).unwrap();
    // top, d, the two added nodes, a, b, x
    assert_eq!(numero, 5);
    assert_eq!(
        names(&gene),
        vec!["top", "d", "SpecOutLoss", "Added Loss", "a", "b", "x"]
    );
    assert_eq!(obsolete, vec![2]);
    assert_eq!(gene.arena[2].val, "ADDED_SPECLOSS2");
    assert_eq!(gene.arena[3].val, "ADDED_LOSS2");
    assert_eq!(gene.arena[3].e, Event::Loss);
    assert_eq!(gene.arena[2].e, Event::Undef);
    assert_eq!(gene.arena[2].location, "S0");
    assert_eq!(gene.arena[0].children, vec![1, 2, 6]);
    assert_eq!(gene.arena[2].children, vec![3]);
    assert_eq!(check_for_obsolete(&mut gene, &mut sp, &obsolete), Ok(()));
    assert_eq!(gene.arena[0].children, vec![2, 6]);
    assert_eq!(gene.arena[2].children, vec![3, 1]);
    assert_eq!(gene.arena[1].parent, Some(2));
    assert_eq!(gene.arena[3].location, "S2");
    assert!(gene.is_well_formed());
    assert!(gene.is_binary(0));
}

#[test]
fn trees_that_cannot_be_put_right() {
    let mut doc = model(OLD);
    let clade = find_first_clade(&mut doc).unwrap();
    let (mut sp, _, _) = read(&doc, clade).unwrap();
    let genes = find_rgtrees(&mut doc).unwrap();
    let fresh = || read(&doc, first_clade_below(&doc, genes[0])).unwrap().0;
    let mut gene = fresh();
    assert_eq!(check_for_obsolete(&mut gene, &mut sp, &vec![]), Ok(()));
    assert_eq!(check_for_obsolete(&mut gene, &mut sp, &vec![0]), Err(RepairError::NoParent));
    assert_eq!(check_for_obsolete(&mut gene, &mut sp, &vec![99]), Err(RepairError::NoParent));
    assert_eq!(
        check_for_obsolete(&mut gene, &mut sp, &vec![4]),
        Err(RepairError::NotThreeChildren)
    );
    let mut gene = fresh();
    gene.arena[2].location = "S9".to_string();
    assert_eq!(
        check_for_obsolete(&mut gene, &mut sp, &vec![2]),
        Err(RepairError::UnknownSpecies)
    );
    let mut gene = fresh();
    gene.arena[2].location = "S1".to_string();
    assert_eq!(
        check_for_obsolete(&mut gene, &mut sp, &vec![2]),
        Err(RepairError::NotTwoSpecies)
    );
    let mut gene = fresh();
    gene.arena[2].children.clear();
    assert_eq!(check_for_obsolete(&mut gene, &mut sp, &vec![2]), Err(RepairError::NoLoss));
    // the duplication outside S1: the loss is in S1
    let mut gene = fresh();
    gene.arena[1].location = "S2".to_string();
    assert_eq!(check_for_obsolete(&mut gene, &mut sp, &vec![2]), Ok(()));
    assert_eq!(gene.arena[3].location, "S1");
}

#[test]
fn taxa_hang_below_their_parents() {
    let mut tree: ArenaTree<String> = ArenaTree::default();
    assert_eq!(add_taxon(&mut tree, 0, "life".to_string(), None), Ok(0));
    assert_eq!(tree.arena.len(), 2);
    assert_eq!(tree.arena[0].val, "N0_life");
    assert_eq!(tree.arena[1].val, "N0_root");
    assert_eq!(tree.arena[1].name, "root");
    assert_eq!(tree.arena[0].name, "life");
    assert_eq!(tree.arena[0].parent, Some(1));
    assert_eq!(tree.arena[0].l, -1000);
    assert_eq!(tree.arena[1].children, vec![0]);
    assert_eq!(
        add_taxon(&mut tree, 12, "plants".to_string(), Some((0, "life".to_string(), 250))),
        Ok(2)
    );
    assert_eq!(tree.arena.len(), 3);
    assert_eq!(tree.arena[2].val, "N12_plants");
    assert_eq!(tree.arena[2].parent, Some(0));
    assert_eq!(tree.arena[2].l, 250);
    assert_eq!(tree.arena[0].children, vec![2]);
    assert_eq!(tree.arena[0].name, "life");
    assert!(tree.is_well_formed());
    assert_eq!(
        add_taxon(&mut tree, 12, "plants".to_string(), None),
        Err(ReadError::DuplicateNode)
    );
    assert_eq!(tree.arena.len(), 3);
    // a taxon 0 named "root" without parent hangs below itself
    let mut odd: ArenaTree<String> = ArenaTree::default();
    assert_eq!(add_taxon(&mut odd, 0, "root".to_string(), None), Ok(0));
    assert_eq!(odd.arena.len(), 1);
    assert_eq!(odd.arena[0].parent, Some(0));
    assert!(!odd.is_well_formed());
}
