//! Phylogenetic trees laid out for drawing: a tree store in which nodes are
//! named by their position, the passes that give every node its place on
//! the plane, for a species tree drawn as a pipe and for the gene trees
//! reconciled inside it, and the readers that fill the store from bracket
//! notation and from documents.
//!
//! Coordinates are whole numbers of layout sub-units and branch lengths
//! whole thousandths. Every pass states, over the sequence of nodes that a
//! tree holds, which nodes it rewrites and what they become; what holds of
//! the passes taken together is proved beside them.

pub mod anchor;
pub mod apart;
pub mod arena;
pub mod bracket;
pub mod centre;
pub mod centred;
pub mod contour;
pub mod event;
pub mod label;
pub mod laws;
pub mod layout;
pub mod listing;
pub mod mapping;
pub mod newick;
pub mod node;
pub mod obsolete;
pub mod phylogram;
pub mod pipe;
pub mod ready;
pub mod recphylo;
pub mod resolve;
pub mod shape;
pub mod shift;
pub mod spread;
pub mod tally;
pub mod taxon;
pub mod valid;
pub mod visit;
pub mod xml;

pub use self::anchor::move_dupli_mappings;
pub use self::arena::ArenaTree;
pub use self::bracket::newick2tree;
pub use self::centre::center_gene_nodes;
pub use self::contour::get_contour_left;
pub use self::contour::get_contour_right;
pub use self::contour::node_xpos;
pub use self::event::Event;
pub use self::event::LayoutError;
pub use self::layout::cladogramme;
pub use self::layout::get_maxdepth;
pub use self::layout::knuth_layout;
pub use self::layout::set_leaves_to_bottom;
pub use self::mapping::map_gene_trees;
pub use self::mapping::map_species_trees;
pub use self::newick::find_left_right;
pub use self::newick::is_splittable;
pub use self::node::BLOCK;
pub use self::node::COORD_LIMIT;
pub use self::node::DUPLICATION_DROP;
pub use self::node::LOSS_DROP;
pub use self::node::NODE_LIMIT;
pub use self::node::Noeud;
pub use self::node::PIPEBLOCK;
pub use self::obsolete::RepairError;
pub use self::obsolete::check_for_obsolete;
pub use self::phylogram::Options;
pub use self::phylogram::real_length;
pub use self::pipe::check_vertical_contour_postorder;
pub use self::pipe::node_ypos;
pub use self::pipe::push_down;
pub use self::pipe::set_species_width;
pub use self::recphylo::ReadError;
pub use self::recphylo::xml2tree;
pub use self::resolve::check_contour_postorder;
pub use self::resolve::push_right;
pub use self::shift::set_middle_postorder;
pub use self::shift::shift_mod_xy;
pub use self::spread::bilan_mappings;
pub use self::visit::explore_postorder;
pub use self::visit::postorder;
pub use self::xml::XmlDoc;
pub use self::xml::XmlNode;
pub use self::xml::find_first_clade;
pub use self::xml::find_rgtrees;
pub use self::xml::find_sptree;
