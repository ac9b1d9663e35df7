//! Reading reconciled trees: the clades of a document become the nodes of a
//! tree, with their names, their events and the species they belong to.

use vstd::prelude::*;
use crate::arena::ArenaTree;
use crate::event::Event;
use crate::label::{digits, numbered};
use crate::node::Noeud;
use crate::xml::{ordered, XmlDoc, XmlView};

verus! {

/// Why a document could not be read.
#[derive(Debug, Clone, Copy, PartialEq, Eq, Structural)]
pub enum ReadError {
    /// An "id" or a "name" has no child to take its text from.
    NoText,
    /// A speciation loss of the old format stands at a node without parent.
    NoParent,
    /// A bifurcation out stands at a node without parent.
    OrphanBifurcation,
    /// The document holds a "speciationOutLoss" or a "speciationOut".
    ObsoleteTag,
    /// A speciation follows a speciation loss of the old format.
    OldFormat,
    /// An event lacks the attribute that places it, or has it elsewhere than
    /// expected.
    BadAttributes,
    /// The value that a new node would hold is held already.
    DuplicateNode,
    /// The tree, or the count of its nodes, would outgrow the machine.
    TooLarge,
}

/// What a reader says of a node: its links, its name, the value by which it
/// is told apart, its event, its species and whether a transfer arrives at
/// it.
pub struct Sketch {
    pub parent: Option<usize>,
    pub children: Seq<usize>,
    pub name: Seq<char>,
    pub val: Seq<char>,
    pub e: Event,
    pub location: Seq<char>,
    pub transfer: bool,
}

/// What a reader says of each node of a sequence of nodes.
pub open spec fn sketches(t: Seq<Noeud<String>>) -> Seq<Sketch> {
    Seq::new(
        t.len(),
        |i: int|
            Sketch {
                parent: t[i].parent,
                children: t[i].children@,
                name: t[i].name@,
                val: t[i].val@,
                e: t[i].e,
                location: t[i].location@,
                transfer: t[i].is_a_transfert,
            },
    )
}

/// A tree as it is read: its nodes, the nodes added for speciation losses
/// of the old format, and the number of clades and of such losses met.
pub struct Reading {
    pub nodes: Seq<Sketch>,
    pub obsolete: Seq<usize>,
    pub numero: nat,
}

/// Speciation losses of the old format within one list of events: how many
/// were met, and the node below which the next one hangs.
pub struct Losses {
    pub count: nat,
    pub current: int,
}

/// The nodes `b` are the nodes `a`, which have kept their place in the
/// layout, their branch length and their genes, and after them nodes with
/// those as `new` makes them.
pub open spec fn kept_layout(a: Seq<Noeud<String>>, b: Seq<Noeud<String>>) -> bool {
    &&& a.len() <= b.len()
    &&& forall|i: int|
        0 <= i < a.len() ==> {
            &&& (#[trigger] b[i]).idx == a[i].idx
            &&& b[i].same_place(a[i])
            &&& b[i].l == a[i].l
            &&& b[i].width == a[i].width
            &&& b[i].height == a[i].height
            &&& b[i].nbg == a[i].nbg
            &&& b[i].nodes == a[i].nodes
        }
    &&& forall|i: int|
        a.len() <= i < b.len() ==> {
            &&& (#[trigger] b[i]).idx == i
            &&& b[i].x == 0 && b[i].y == 0 && b[i].xmod == 0 && b[i].ymod == 0
            &&& b[i].l == 0
            &&& b[i].width == 15
            &&& b[i].height == 15
            &&& b[i].nbg == 0
            &&& b[i].nodes@ == Seq::<(usize, usize)>::empty()
        }
}

/// Some node holds the value `val`.
pub open spec fn holds(nodes: Seq<Sketch>, val: Seq<char>) -> bool {
    exists|i: int| 0 <= i < nodes.len() && (#[trigger] nodes[i]).val == val
}

/// The nodes `nodes` and a new node that holds `val`, the last child of
/// `parent`: named "Undefined", of no event and of no species.
pub open spec fn grafted(nodes: Seq<Sketch>, parent: int, val: Seq<char>) -> Result<
    Seq<Sketch>,
    ReadError,
> {
    if nodes.len() + 1 >= usize::MAX {
        Err(ReadError::TooLarge)
    } else if holds(nodes, val) {
        Err(ReadError::DuplicateNode)
    } else {
        Ok(
            nodes.update(
                parent,
                (Sketch { children: nodes[parent].children.push(nodes.len() as usize), ..nodes[parent] }),
            ).push(
                (Sketch {
                    parent: Some(parent as usize),
                    children: Seq::empty(),
                    name: "Undefined"@,
                    val: val,
                    e: Event::Undef,
                    location: "Undefined"@,
                    transfer: false,
                }),
            ),
        )
    }
}

/// The value of the first attribute of `v`, where that is named `key`.
pub open spec fn place_of(v: XmlView, key: Seq<char>) -> Option<Seq<char>> {
    if v.attributes.len() >= 1 && v.attributes[0].0 == key {
        Some(v.attributes[0].1)
    } else {
        None
    }
}

/// The reading `r` once the event `v` has stamped node `p`: the node takes
/// the event `e` and, as its species, the value of the first attribute of
/// `v`, which must be named `key`; where `transfer` is set, a transfer
/// arrives at it.
pub open spec fn stamped(r: Reading, v: XmlView, p: int, e: Event, key: Seq<char>, transfer: bool) -> Result<
    Reading,
    ReadError,
> {
    match place_of(v, key) {
        None => Err(ReadError::BadAttributes),
        Some(location) => Ok(
            Reading {
                nodes: r.nodes.update(
                    p,
                    (Sketch {
                        e: e,
                        location: location,
                        transfer: transfer || r.nodes[p].transfer,
                        ..r.nodes[p]
                    }),
                ),
                ..r
            },
        ),
    }
}

/// The reading `r` once the leaf `v` has stamped node `p`: the node becomes
/// a leaf of the species that the attribute "speciesLocation" gives, which
/// stands alone or beside "geneName", in either order, whose value then
/// names the node.
pub open spec fn leafed(r: Reading, v: XmlView, p: int) -> Result<Reading, ReadError> {
    let a = v.attributes;
    if a.len() == 1 && a[0].0 == "speciesLocation"@ {
        Ok(
            Reading {
                nodes: r.nodes.update(
                    p,
                    (Sketch { e: Event::Leaf, location: a[0].1, ..r.nodes[p] }),
                ),
                ..r
            },
        )
    } else if a.len() == 2 && a[0].0 == "geneName"@ && a[1].0 == "speciesLocation"@ {
        Ok(
            Reading {
                nodes: r.nodes.update(
                    p,
                    (Sketch { e: Event::Leaf, name: a[0].1, location: a[1].1, ..r.nodes[p] }),
                ),
                ..r
            },
        )
    } else if a.len() == 2 && a[0].0 == "speciesLocation"@ && a[1].0 == "geneName"@ {
        Ok(
            Reading {
                nodes: r.nodes.update(
                    p,
                    (Sketch { e: Event::Leaf, name: a[1].1, location: a[0].1, ..r.nodes[p] }),
                ),
                ..r
            },
        )
    } else {
        Err(ReadError::BadAttributes)
    }
}

/// The reading `r` once a bifurcation out has stamped node `p`: the node
/// takes the species of its parent, and a transfer arrives at it.
pub open spec fn bifurcated(r: Reading, p: int) -> Result<Reading, ReadError> {
    match r.nodes[p].parent {
        None => Err(ReadError::OrphanBifurcation),
        Some(q) => Ok(
            Reading {
                nodes: r.nodes.update(
                    p,
                    (Sketch {
                        e: Event::BifurcationOut,
                        location: r.nodes[q as int].location,
                        transfer: true,
                        ..r.nodes[p]
                    }),
                ),
                ..r
            },
        ),
    }
}

/// The reading `r` once a speciation loss of the old format, `v`, has been
/// met at node `p`: below the parent of `p`, or below the node added for the
/// loss before it, hangs a new node named "SpecOutLoss", of the species that
/// the first attribute of `v` gives, and below that a loss named "Added
/// Loss".
pub open spec fn lost(r: Reading, v: XmlView, p: int, s: Losses) -> Result<
    (Reading, Losses),
    ReadError,
> {
    if s.count == 0 && r.nodes[p].parent.is_none() {
        Err(ReadError::NoParent)
    } else if r.numero >= usize::MAX {
        Err(ReadError::TooLarge)
    } else {
        let above = if s.count == 0 {
            r.nodes[p].parent.unwrap() as int
        } else {
            s.current
        };
        let numero = r.numero + 1;
        let speciation = r.nodes.len() as int;
        match grafted(r.nodes, above, "ADDED_SPECLOSS"@ + digits(numero)) {
            Err(e) => Err(e),
            Ok(n1) => match grafted(n1, speciation, "ADDED_LOSS"@ + digits(numero)) {
                Err(e) => Err(e),
                Ok(n2) => match place_of(v, "speciesLocation"@) {
                    None => Err(ReadError::BadAttributes),
                    Some(location) => Ok(
                        (
                            Reading {
                                nodes: n2.update(
                                    speciation + 1,
                                    (Sketch {
                                        e: Event::Loss,
                                        name: "Added Loss"@,
                                        ..n2[speciation + 1]
                                    }),
                                ).update(
                                    speciation,
                                    (Sketch {
                                        name: "SpecOutLoss"@,
                                        location: location,
                                        ..n2[speciation]
                                    }),
                                ),
                                obsolete: r.obsolete.push(speciation as usize),
                                numero: numero,
                            },
                            Losses { count: s.count + 1, current: speciation },
                        ),
                    ),
                },
            },
        }
    }
}

/// `r` and `s`, or the error.
pub open spec fn with_losses(r: Result<Reading, ReadError>, s: Losses) -> Result<
    (Reading, Losses),
    ReadError,
> {
    match r {
        Ok(r) => Ok((r, s)),
        Err(e) => Err(e),
    }
}

/// The reading `r` once the event `v` has been read for node `p`.
pub open spec fn read_event(r: Reading, v: XmlView, p: int, s: Losses) -> Result<
    (Reading, Losses),
    ReadError,
> {
    if v.tag == "speciationLoss"@ {
        lost(r, v, p, s)
    } else if v.tag == "speciationOutLoss"@ || v.tag == "speciationOut"@ {
        Err(ReadError::ObsoleteTag)
    } else if v.tag == "loss"@ {
        with_losses(stamped(r, v, p, Event::Loss, "speciesLocation"@, false), s)
    } else if v.tag == "leaf"@ {
        with_losses(leafed(r, v, p), s)
    } else if v.tag == "speciation"@ {
        if s.count > 0 {
            Err(ReadError::OldFormat)
        } else {
            with_losses(stamped(r, v, p, Event::Speciation, "speciesLocation"@, false), s)
        }
    } else if v.tag == "duplication"@ {
        with_losses(stamped(r, v, p, Event::Duplication, "speciesLocation"@, false), s)
    } else if v.tag == "branchingOut"@ {
        with_losses(stamped(r, v, p, Event::BranchingOut, "speciesLocation"@, false), s)
    } else if v.tag == "transferBack"@ {
        with_losses(stamped(r, v, p, Event::TransferBack, "destinationSpecies"@, true), s)
    } else if v.tag == "bifurcationOut"@ {
        with_losses(bifurcated(r, p), s)
    } else {
        Ok((r, s))
    }
}

/// The reading `r` once the first `k` of the events `events` have been read
/// for node `p`, one after the other.
pub open spec fn read_events(
    r: Reading,
    d: Seq<XmlView>,
    events: Seq<usize>,
    k: nat,
    p: int,
) -> Result<(Reading, Losses), ReadError>
    decreases k,
{
    if k == 0 {
        Ok((r, Losses { count: 0, current: p }))
    } else {
        match read_events(r, d, events, (k - 1) as nat, p) {
            Err(e) => Err(e),
            Ok((r1, s1)) => read_event(r1, d[events[k - 1] as int], p, s1),
        }
    }
}

/// The reading `r` once the child `c` of a clade has been read for the node
/// `p` that stands for the clade: a "clade" becomes a new child of `p`,
/// labelled "N" and its number, and is read in turn; an "id" or a "name"
/// names `p` by the text of its first child, or "Unkwnown"; an "eventsRec"
/// gives `p` its events; anything else is passed over.
pub open spec fn read_child(r: Reading, d: Seq<XmlView>, c: int, p: int) -> Result<
    Reading,
    ReadError,
>
    decreases d.len() - c, 1nat, 0nat,
    when ordered(d) && 0 <= c < d.len()
{
    let v = d[c];
    if v.tag == "clade"@ {
        if r.numero >= usize::MAX {
            Err(ReadError::TooLarge)
        } else {
            match grafted(r.nodes, p, "N"@ + digits(r.numero + 1)) {
                Err(e) => Err(e),
                Ok(nodes) => read_children(
                    Reading { nodes: nodes, numero: r.numero + 1, ..r },
                    d,
                    c,
                    v.children.len(),
                    r.nodes.len() as int,
                ),
            }
        }
    } else if v.tag == "id"@ || v.tag == "name"@ {
        if v.children.len() == 0 {
            Err(ReadError::NoText)
        } else {
            let name = match d[v.children[0] as int].text {
                Some(text) => text,
                None => "Unkwnown"@,
            };
            Ok(Reading { nodes: r.nodes.update(p, (Sketch { name: name, ..r.nodes[p] })), ..r })
        }
    } else if v.tag == "eventsRec"@ {
        match read_events(r, d, v.children, v.children.len(), p) {
            Err(e) => Err(e),
            Ok((r1, _s)) => Ok(r1),
        }
    } else {
        Ok(r)
    }
}

/// The reading `r` once the first `k` children of the document node `node`
/// have been read for the tree node `p`, one after the other.
pub open spec fn read_children(r: Reading, d: Seq<XmlView>, node: int, k: nat, p: int) -> Result<
    Reading,
    ReadError,
>
    decreases d.len() - node, 0nat, k,
    when ordered(d) && 0 <= node < d.len() && k <= d[node].children.len()
{
    if k == 0 {
        Ok(r)
    } else {
        match read_children(r, d, node, (k - 1) as nat, p) {
            Err(e) => Err(e),
            Ok(r1) => read_child(r1, d, d[node].children[k - 1] as int, p),
        }
    }
}

/// The reading that a tree, a list of nodes added for speciation losses and
/// a count stand for.
pub open spec fn reading(t: &ArenaTree<String>, obsolete: Seq<usize>, numero: nat) -> Reading {
    Reading { nodes: sketches(t@), obsolete: obsolete, numero: numero }
}

fn is_tagged(doc: &XmlDoc, c: usize, name: &str) -> (r: bool)
    requires
        c < doc@.len(),
    ensures
        r == (doc@[c as int].tag == name@),
{
    assert(doc@[c as int].tag == doc.nodes@[c as int].tag@);
    doc.nodes[c].tag == name.to_owned()
}

pub(crate) fn has_val(tree: &ArenaTree<String>, val: &String) -> (r: bool)
    ensures
        r == holds(sketches(tree@), val@),
{
    let mut i: usize = 0;
    while i < tree.arena.len()
        invariant
            i <= tree@.len(),
            forall|j: int| 0 <= j < i ==> (#[trigger] sketches(tree@)[j]).val != val@,
        decreases tree@.len() - i,
    {
        if tree.arena[i].val == *val {
            assert(sketches(tree@)[i as int].val == val@);
            return true;
        }
        i += 1;
    }
    false
}

fn graft(tree: &mut ArenaTree<String>, parent: usize, val: String) -> (r: Result<usize, ReadError>)
    requires
        old(tree).wf(),
        parent < old(tree)@.len(),
    ensures
        match r {
            Ok(c) => {
                &&& c == old(tree)@.len()
                &&& final(tree)@.len() == old(tree)@.len() + 1
                &&& grafted(sketches(old(tree)@), parent as int, val@) == Ok::<
                    Seq<Sketch>,
                    ReadError,
                >(sketches(final(tree)@))
                &&& final(tree).wf()
                &&& kept_layout(old(tree)@, final(tree)@)
            },
            Err(e) => grafted(sketches(old(tree)@), parent as int, val@) == Err::<
                Seq<Sketch>,
                ReadError,
            >(e),
        },
{
    let ghost t0 = *tree;
    if tree.arena.len() >= usize::MAX - 1 {
        return Err(ReadError::TooLarge);
    }
    if has_val(tree, &val) {
        return Err(ReadError::DuplicateNode);
    }
    proof {
        assert forall|j: int| 0 <= j < tree@.len() implies (#[trigger] tree@[j]).val@ != val@ by {
            assert(sketches(tree@)[j].val == tree@[j].val@);
        }
    }
    let ghost wanted = val@;
    let child = tree.add_child(parent, val);
    proof {
        assert(sketches(tree@) =~= grafted(sketches(t0@), parent as int, wanted).unwrap());
        assert(tree@[parent as int].same_but_children(t0@[parent as int]));
    }
    Ok(child)
}

fn first_place(doc: &XmlDoc, ev: usize, key: &str) -> (r: Option<String>)
    requires
        ev < doc@.len(),
    ensures
        match r {
            Some(l) => place_of(doc@[ev as int], key@) == Some(l@),
            None => place_of(doc@[ev as int], key@).is_none(),
        },
{
    assert(doc@[ev as int] == doc.nodes@[ev as int]@);
    if doc.nodes[ev].attributes.len() >= 1 && doc.nodes[ev].attributes[0].0 == key.to_owned() {
        Some(doc.nodes[ev].attributes[0].1.clone())
    } else {
        None
    }
}

fn stamp(
    tree: &mut ArenaTree<String>,
    doc: &XmlDoc,
    ev: usize,
    p: usize,
    e: Event,
    key: &str,
    transfer: bool,
    Ghost(obsolete): Ghost<Seq<usize>>,
    Ghost(numero): Ghost<nat>,
) -> (r: Result<(), ReadError>)
    requires
        old(tree).wf(),
        p < old(tree)@.len(),
        ev < doc@.len(),
    ensures
        match r {
            Ok(()) => {
                &&& stamped(
                    reading(old(tree), obsolete, numero),
                    doc@[ev as int],
                    p as int,
                    e,
                    key@,
                    transfer,
                ) == Ok::<Reading, ReadError>(reading(final(tree), obsolete, numero))
                &&& final(tree).wf()
                &&& final(tree)@.len() == old(tree)@.len()
                &&& kept_layout(old(tree)@, final(tree)@)
            },
            Err(e2) => stamped(
                reading(old(tree), obsolete, numero),
                doc@[ev as int],
                p as int,
                e,
                key@,
                transfer,
            ) == Err::<Reading, ReadError>(e2),
        },
{
    let ghost t0 = *tree;
    match first_place(doc, ev, key) {
        None => Err(ReadError::BadAttributes),
        Some(location) => {
            let ghost wanted = location@;
            tree.arena[p].e = e;
            tree.arena[p].location = location;
            if transfer {
                tree.arena[p].is_a_transfert = true;
            }
            proof {
                assert(tree.links() =~= t0.links());
                assert(sketches(tree@) =~= sketches(t0@).update(
                    p as int,
                    (Sketch {
                        e: e,
                        location: wanted,
                        transfer: transfer || sketches(t0@)[p as int].transfer,
                        ..sketches(t0@)[p as int]
                    }),
                ));
            }
            Ok(())
        },
    }
}

fn leaf(
    tree: &mut ArenaTree<String>,
    doc: &XmlDoc,
    ev: usize,
    p: usize,
    Ghost(obsolete): Ghost<Seq<usize>>,
    Ghost(numero): Ghost<nat>,
) -> (r: Result<(), ReadError>)
    requires
        old(tree).wf(),
        p < old(tree)@.len(),
        ev < doc@.len(),
    ensures
        match r {
            Ok(()) => {
                &&& leafed(reading(old(tree), obsolete, numero), doc@[ev as int], p as int) == Ok::<
                    Reading,
                    ReadError,
                >(reading(final(tree), obsolete, numero))
                &&& final(tree).wf()
                &&& final(tree)@.len() == old(tree)@.len()
                &&& kept_layout(old(tree)@, final(tree)@)
            },
            Err(e2) => leafed(reading(old(tree), obsolete, numero), doc@[ev as int], p as int)
                == Err::<Reading, ReadError>(e2),
        },
{
    let ghost t0 = *tree;
    let ghost v = doc@[ev as int];
    assert(v == doc.nodes@[ev as int]@);
    let count = doc.nodes[ev].attributes.len();
    let species = "speciesLocation".to_owned();
    let gene = "geneName".to_owned();
    if count == 1 && doc.nodes[ev].attributes[0].0 == species {
        let location = doc.nodes[ev].attributes[0].1.clone();
        tree.arena[p].e = Event::Leaf;
        tree.arena[p].location = location;
        proof {
            assert(tree.links() =~= t0.links());
            assert(sketches(tree@) =~= sketches(t0@).update(
                p as int,
                (Sketch { e: Event::Leaf, location: v.attributes[0].1, ..sketches(t0@)[p as int] }),
            ));
        }
        Ok(())
    } else if count == 2 && doc.nodes[ev].attributes[0].0 == gene
        && doc.nodes[ev].attributes[1].0 == species {
        let name = doc.nodes[ev].attributes[0].1.clone();
        let location = doc.nodes[ev].attributes[1].1.clone();
        tree.arena[p].e = Event::Leaf;
        tree.arena[p].name = name;
        tree.arena[p].location = location;
        proof {
            assert(tree.links() =~= t0.links());
            assert(sketches(tree@) =~= sketches(t0@).update(
                p as int,
                (Sketch {
                    e: Event::Leaf,
                    name: v.attributes[0].1,
                    location: v.attributes[1].1,
                    ..sketches(t0@)[p as int]
                }),
            ));
        }
        Ok(())
    } else if count == 2 && doc.nodes[ev].attributes[0].0 == species
        && doc.nodes[ev].attributes[1].0 == gene {
        let name = doc.nodes[ev].attributes[1].1.clone();
        let location = doc.nodes[ev].attributes[0].1.clone();
        tree.arena[p].e = Event::Leaf;
        tree.arena[p].name = name;
        tree.arena[p].location = location;
        proof {
            assert(tree.links() =~= t0.links());
            assert(sketches(tree@) =~= sketches(t0@).update(
                p as int,
                (Sketch {
                    e: Event::Leaf,
                    name: v.attributes[1].1,
                    location: v.attributes[0].1,
                    ..sketches(t0@)[p as int]
                }),
            ));
        }
        Ok(())
    } else {
        Err(ReadError::BadAttributes)
    }
}

fn bifurcate(
    tree: &mut ArenaTree<String>,
    p: usize,
    Ghost(obsolete): Ghost<Seq<usize>>,
    Ghost(numero): Ghost<nat>,
) -> (r: Result<(), ReadError>)
    requires
        old(tree).wf(),
        p < old(tree)@.len(),
    ensures
        match r {
            Ok(()) => {
                &&& bifurcated(reading(old(tree), obsolete, numero), p as int) == Ok::<
                    Reading,
                    ReadError,
                >(reading(final(tree), obsolete, numero))
                &&& final(tree).wf()
                &&& final(tree)@.len() == old(tree)@.len()
                &&& kept_layout(old(tree)@, final(tree)@)
            },
            Err(e2) => bifurcated(reading(old(tree), obsolete, numero), p as int) == Err::<
                Reading,
                ReadError,
            >(e2),
        },
{
    let ghost t0 = *tree;
    match tree.arena[p].parent {
        None => Err(ReadError::OrphanBifurcation),
        Some(q) => {
            proof {
                assert(t0.links()[p as int].parent == Some(q));
            }
            let location = tree.arena[q].location.clone();
            tree.arena[p].e = Event::BifurcationOut;
            tree.arena[p].location = location;
            tree.arena[p].is_a_transfert = true;
            proof {
                assert(tree.links() =~= t0.links());
                assert(sketches(tree@) =~= sketches(t0@).update(
                    p as int,
                    (Sketch {
                        e: Event::BifurcationOut,
                        location: sketches(t0@)[q as int].location,
                        transfer: true,
                        ..sketches(t0@)[p as int]
                    }),
                ));
            }
            Ok(())
        },
    }
}

fn lose(
    tree: &mut ArenaTree<String>,
    doc: &XmlDoc,
    ev: usize,
    p: usize,
    numero: &mut usize,
    obsolete: &mut Vec<usize>,
    met: bool,
    current: usize,
    Ghost(s): Ghost<Losses>,
) -> (r: Result<usize, ReadError>)
    requires
        old(tree).wf(),
        p < old(tree)@.len(),
        ev < doc@.len(),
        met == (s.count > 0),
        met ==> current == s.current && current < old(tree)@.len(),
    ensures
        match r {
            Ok(c) => {
                &&& lost(
                    reading(old(tree), old(obsolete)@, *old(numero) as nat),
                    doc@[ev as int],
                    p as int,
                    s,
                ) == Ok::<(Reading, Losses), ReadError>(
                    (
                        reading(final(tree), final(obsolete)@, *final(numero) as nat),
                        Losses { count: s.count + 1, current: c as int },
                    ),
                )
                &&& c < final(tree)@.len()
                &&& final(tree).wf()
                &&& final(tree)@.len() >= old(tree)@.len()
                &&& kept_layout(old(tree)@, final(tree)@)
            },
            Err(e) => lost(
                reading(old(tree), old(obsolete)@, *old(numero) as nat),
                doc@[ev as int],
                p as int,
                s,
            ) == Err::<(Reading, Losses), ReadError>(e),
        },
{
    let ghost t0 = *tree;
    let ghost o0 = obsolete@;
    let above = if met {
        current
    } else {
        match tree.arena[p].parent {
            Some(q) => {
                proof {
                    assert(t0.links()[p as int].parent == Some(q));
                }
                q
            },
            None => {
                return Err(ReadError::NoParent);
            },
        }
    };
    if *numero >= usize::MAX {
        return Err(ReadError::TooLarge);
    }
    *numero = *numero + 1;
    proof {
        reveal_strlit("ADDED_SPECLOSS");
        reveal_strlit("ADDED_LOSS");
    }
    let speciation = match graft(tree, above, numbered("ADDED_SPECLOSS", *numero)) {
        Ok(c) => c,
        Err(e) => {
            return Err(e);
        },
    };
    let ghost t1 = *tree;
    let loss = match graft(tree, speciation, numbered("ADDED_LOSS", *numero)) {
        Ok(c) => c,
        Err(e) => {
            return Err(e);
        },
    };
    let ghost t2 = *tree;
    let location = match first_place(doc, ev, "speciesLocation") {
        Some(location) => location,
        None => {
            return Err(ReadError::BadAttributes);
        },
    };
    let ghost wanted = location@;
    tree.arena[loss].e = Event::Loss;
    tree.arena[loss].name = "Added Loss".to_owned();
    tree.arena[speciation].name = "SpecOutLoss".to_owned();
    tree.arena[speciation].location = location;
    obsolete.push(speciation);
    proof {
        assert(tree.links() =~= t2.links());
        assert(sketches(tree@) =~= sketches(t2@).update(
            speciation + 1,
            (Sketch { e: Event::Loss, name: "Added Loss"@, ..sketches(t2@)[speciation + 1] }),
        ).update(
            speciation as int,
            (Sketch {
                name: "SpecOutLoss"@,
                location: wanted,
                ..sketches(t2@)[speciation as int]
            }),
        ));
        assert(kept_layout(t0@, tree@)) by {
            assert forall|i: int| 0 <= i < t0@.len() implies (#[trigger] tree@[i]).idx
                == t0@[i].idx && tree@[i].same_place(t0@[i]) && tree@[i].l == t0@[i].l
                && tree@[i].width == t0@[i].width && tree@[i].height == t0@[i].height
                && tree@[i].nbg == t0@[i].nbg && tree@[i].nodes == t0@[i].nodes by {
                assert(t1@[i].idx == t0@[i].idx);
                assert(t2@[i].idx == t1@[i].idx);
            }
            assert forall|i: int| t0@.len() <= i < tree@.len() implies (#[trigger] tree@[i]).idx
                == i && tree@[i].x == 0 && tree@[i].y == 0 && tree@[i].xmod == 0
                && tree@[i].ymod == 0 && tree@[i].l == 0 && tree@[i].width == 15
                && tree@[i].height == 15 && tree@[i].nbg == 0 && tree@[i].nodes@ == Seq::<
                (usize, usize),
            >::empty() by {
                if i < t1@.len() {
                    assert(t1@[i].idx == i);
                    assert(t2@[i].idx == t1@[i].idx);
                } else {
                    assert(t2@[i].idx == i);
                }
            }
        }
    }
    Ok(speciation)
}

fn event(
    tree: &mut ArenaTree<String>,
    doc: &XmlDoc,
    ev: usize,
    p: usize,
    numero: &mut usize,
    obsolete: &mut Vec<usize>,
    met: bool,
    current: usize,
    Ghost(s): Ghost<Losses>,
) -> (r: Result<(bool, usize, Ghost<Losses>), ReadError>)
    requires
        old(tree).wf(),
        p < old(tree)@.len(),
        ev < doc@.len(),
        met == (s.count > 0),
        met ==> current == s.current && current < old(tree)@.len(),
    ensures
        match r {
            Ok((met2, current2, s2)) => {
                &&& read_event(
                    reading(old(tree), old(obsolete)@, *old(numero) as nat),
                    doc@[ev as int],
                    p as int,
                    s,
                ) == Ok::<(Reading, Losses), ReadError>(
                    (reading(final(tree), final(obsolete)@, *final(numero) as nat), s2@),
                )
                &&& met2 == (s2@.count > 0)
                &&& met2 ==> current2 == s2@.current && current2 < final(tree)@.len()
                &&& final(tree).wf()
                &&& final(tree)@.len() >= old(tree)@.len()
                &&& kept_layout(old(tree)@, final(tree)@)
            },
            Err(e) => read_event(
                reading(old(tree), old(obsolete)@, *old(numero) as nat),
                doc@[ev as int],
                p as int,
                s,
            ) == Err::<(Reading, Losses), ReadError>(e),
        },
{
    let ghost o = obsolete@;
    let ghost n = *numero as nat;
    if is_tagged(doc, ev, "speciationLoss") {
        match lose(tree, doc, ev, p, numero, obsolete, met, current, Ghost(s)) {
            Ok(c) => Ok((true, c, Ghost(Losses { count: s.count + 1, current: c as int }))),
            Err(e) => Err(e),
        }
    } else if is_tagged(doc, ev, "speciationOutLoss") || is_tagged(doc, ev, "speciationOut") {
        Err(ReadError::ObsoleteTag)
    } else if is_tagged(doc, ev, "loss") {
        match stamp(tree, doc, ev, p, Event::Loss, "speciesLocation", false, Ghost(o), Ghost(n)) {
            Ok(()) => Ok((met, current, Ghost(s))),
            Err(e) => Err(e),
        }
    } else if is_tagged(doc, ev, "leaf") {
        match leaf(tree, doc, ev, p, Ghost(o), Ghost(n)) {
            Ok(()) => Ok((met, current, Ghost(s))),
            Err(e) => Err(e),
        }
    } else if is_tagged(doc, ev, "speciation") {
        if met {
            Err(ReadError::OldFormat)
        } else {
            match stamp(
                tree,
                doc,
                ev,
                p,
                Event::Speciation,
                "speciesLocation",
                false,
                Ghost(o),
                Ghost(n),
            ) {
                Ok(()) => Ok((met, current, Ghost(s))),
                Err(e) => Err(e),
            }
        }
    } else if is_tagged(doc, ev, "duplication") {
        match stamp(
            tree,
            doc,
            ev,
            p,
            Event::Duplication,
            "speciesLocation",
            false,
            Ghost(o),
            Ghost(n),
        ) {
            Ok(()) => Ok((met, current, Ghost(s))),
            Err(e) => Err(e),
        }
    } else if is_tagged(doc, ev, "branchingOut") {
        match stamp(
            tree,
            doc,
            ev,
            p,
            Event::BranchingOut,
            "speciesLocation",
            false,
            Ghost(o),
            Ghost(n),
        ) {
            Ok(()) => Ok((met, current, Ghost(s))),
            Err(e) => Err(e),
        }
    } else if is_tagged(doc, ev, "transferBack") {
        match stamp(
            tree,
            doc,
            ev,
            p,
            Event::TransferBack,
            "destinationSpecies",
            true,
            Ghost(o),
            Ghost(n),
        ) {
            Ok(()) => Ok((met, current, Ghost(s))),
            Err(e) => Err(e),
        }
    } else if is_tagged(doc, ev, "bifurcationOut") {
        match bifurcate(tree, p, Ghost(o), Ghost(n)) {
            Ok(()) => Ok((met, current, Ghost(s))),
            Err(e) => Err(e),
        }
    } else {
        assert(kept_layout(tree@, tree@));
        Ok((met, current, Ghost(s)))
    }
}

/// Layouts that are kept twice are kept.
pub proof fn lemma_kept_twice(a: Seq<Noeud<String>>, b: Seq<Noeud<String>>, c: Seq<Noeud<String>>)
    requires
        kept_layout(a, b),
        kept_layout(b, c),
    ensures
        kept_layout(a, c),
{
    assert forall|i: int| 0 <= i < a.len() implies (#[trigger] c[i]).idx == a[i].idx
        && c[i].same_place(a[i]) && c[i].l == a[i].l && c[i].width == a[i].width && c[i].height
        == a[i].height && c[i].nbg == a[i].nbg && c[i].nodes == a[i].nodes by {
        assert(b[i].idx == a[i].idx);
        assert(c[i].idx == b[i].idx);
    }
    assert forall|i: int| a.len() <= i < c.len() implies (#[trigger] c[i]).idx == i && c[i].x == 0
        && c[i].y == 0 && c[i].xmod == 0 && c[i].ymod == 0 && c[i].l == 0 && c[i].width == 15
        && c[i].height == 15 && c[i].nbg == 0 && c[i].nodes@ == Seq::<(usize, usize)>::empty() by {
        if i < b.len() {
            assert(b[i].idx == i);
            assert(c[i].idx == b[i].idx);
        }
    }
}

fn events(
    tree: &mut ArenaTree<String>,
    doc: &XmlDoc,
    list: usize,
    p: usize,
    numero: &mut usize,
    obsolete: &mut Vec<usize>,
) -> (r: Result<(), ReadError>)
    requires
        old(tree).wf(),
        p < old(tree)@.len(),
        list < doc@.len(),
        ordered(doc@),
    ensures
        match r {
            Ok(()) => {
                &&& match read_events(
                    reading(old(tree), old(obsolete)@, *old(numero) as nat),
                    doc@,
                    doc@[list as int].children,
                    doc@[list as int].children.len(),
                    p as int,
                ) {
                    Ok((r1, _s)) => r1 == reading(
                        final(tree),
                        final(obsolete)@,
                        *final(numero) as nat,
                    ),
                    Err(_) => false,
                }
                &&& final(tree).wf()
                &&& final(tree)@.len() >= old(tree)@.len()
                &&& kept_layout(old(tree)@, final(tree)@)
            },
            Err(e) => read_events(
                reading(old(tree), old(obsolete)@, *old(numero) as nat),
                doc@,
                doc@[list as int].children,
                doc@[list as int].children.len(),
                p as int,
            ) == Err::<(Reading, Losses), ReadError>(e),
        },
{
    let ghost t0 = *tree;
    let ghost r0 = reading(tree, obsolete@, *numero as nat);
    let ghost d = doc@;
    let ghost kids = d[list as int].children;
    assert(kids == doc.nodes@[list as int].children@);
    let count = doc.nodes[list].children.len();
    let mut met = false;
    let mut current = p;
    let ghost mut s = Losses { count: 0, current: p as int };
    let mut k: usize = 0;
    assert(kept_layout(t0@, tree@));
    while k < count
        invariant
            k <= count,
            count == kids.len(),
            d == doc@,
            list < d.len(),
            kids == d[list as int].children,
            kids == doc.nodes@[list as int].children@,
            ordered(d),
            tree.wf(),
            p < t0@.len(),
            t0@.len() <= tree@.len(),
            kept_layout(t0@, tree@),
            met == (s.count > 0),
            met ==> current == s.current && current < tree@.len(),
            r0 == reading(old(tree), old(obsolete)@, *old(numero) as nat),
            read_events(r0, d, kids, k as nat, p as int) == Ok::<(Reading, Losses), ReadError>(
                (reading(tree, obsolete@, *numero as nat), s),
            ),
        decreases count - k,
    {
        let ev = doc.nodes[list].children[k];
        let ghost t1 = *tree;
        proof {
            assert(list < kids[k as int] < d.len());
        }
        match event(tree, doc, ev, p, numero, obsolete, met, current, Ghost(s)) {
            Ok((met2, current2, s2)) => {
                met = met2;
                current = current2;
                proof {
                    s = s2@;
                    lemma_kept_twice(t0@, t1@, tree@);
                }
            },
            Err(e) => {
                proof {
                    assert(read_events(r0, d, kids, (k + 1) as nat, p as int) == Err::<
                        (Reading, Losses),
                        ReadError,
                    >(e));
                    lemma_events_fail(r0, d, kids, (k + 1) as nat, count as nat, p as int);
                    assert(read_events(r0, d, kids, count as nat, p as int) == Err::<
                        (Reading, Losses),
                        ReadError,
                    >(e));
                }
                return Err(e);
            },
        }
        k += 1;
    }
    Ok(())
}

/// A list of events that cannot be read up to one of them cannot be read
/// further.
pub proof fn lemma_events_fail(
    r: Reading,
    d: Seq<XmlView>,
    events: Seq<usize>,
    k: nat,
    n: nat,
    p: int,
)
    requires
        k <= n,
        read_events(r, d, events, k, p).is_err(),
    ensures
        read_events(r, d, events, n, p) == read_events(r, d, events, k, p),
    decreases n - k,
{
    if k < n {
        lemma_events_fail(r, d, events, k, (n - 1) as nat, p);
    }
}

/// The children of a node that cannot be read up to one of them cannot be
/// read further.
pub proof fn lemma_children_fail(r: Reading, d: Seq<XmlView>, node: int, k: nat, n: nat, p: int)
    requires
        ordered(d),
        0 <= node < d.len(),
        k <= n <= d[node].children.len(),
        read_children(r, d, node, k, p).is_err(),
    ensures
        read_children(r, d, node, n, p) == read_children(r, d, node, k, p),
    decreases n - k,
{
    if k < n {
        lemma_children_fail(r, d, node, k, (n - 1) as nat, p);
    }
}

fn read_one(
    doc: &XmlDoc,
    c: usize,
    p: usize,
    numero: &mut usize,
    tree: &mut ArenaTree<String>,
    obsolete: &mut Vec<usize>,
) -> (r: Result<(), ReadError>)
    requires
        old(tree).wf(),
        p < old(tree)@.len(),
        c < doc@.len(),
        ordered(doc@),
    ensures
        match r {
            Ok(()) => {
                &&& read_child(
                    reading(old(tree), old(obsolete)@, *old(numero) as nat),
                    doc@,
                    c as int,
                    p as int,
                ) == Ok::<Reading, ReadError>(
                    reading(final(tree), final(obsolete)@, *final(numero) as nat),
                )
                &&& final(tree).wf()
                &&& final(tree)@.len() >= old(tree)@.len()
                &&& kept_layout(old(tree)@, final(tree)@)
            },
            Err(e) => read_child(
                reading(old(tree), old(obsolete)@, *old(numero) as nat),
                doc@,
                c as int,
                p as int,
            ) == Err::<Reading, ReadError>(e),
        },
    decreases doc@.len() - c, 1nat, 0nat,
{
    let ghost t0 = *tree;
    let ghost d = doc@;
    let ghost v = d[c as int];
    assert(v == doc.nodes@[c as int]@);
    if is_tagged(doc, c, "clade") {
        if *numero >= usize::MAX {
            return Err(ReadError::TooLarge);
        }
        proof {
            reveal_strlit("N");
        }
        let name = match graft(tree, p, numbered("N", *numero + 1)) {
            Ok(n) => n,
            Err(e) => {
                return Err(e);
            },
        };
        *numero = *numero + 1;
        let ghost t1 = *tree;
        match xml2tree(doc, c, name, numero, tree, obsolete) {
            Ok(()) => {
                proof {
                    lemma_kept_twice(t0@, t1@, tree@);
                }
                Ok(())
            },
            Err(e) => Err(e),
        }
    } else if is_tagged(doc, c, "id") || is_tagged(doc, c, "name") {
        if doc.nodes[c].children.len() == 0 {
            return Err(ReadError::NoText);
        }
        let first = doc.nodes[c].children[0];
        proof {
            assert(c < v.children[0] < d.len());
            assert(d[first as int] == doc.nodes@[first as int]@);
        }
        let name = match &doc.nodes[first].text {
            Some(text) => text.clone(),
            None => "Unkwnown".to_owned(),
        };
        let ghost wanted = name@;
        tree.arena[p].name = name;
        proof {
            assert(tree.links() =~= t0.links());
            assert(sketches(tree@) =~= sketches(t0@).update(
                p as int,
                (Sketch { name: wanted, ..sketches(t0@)[p as int] }),
            ));
        }
        Ok(())
    } else if is_tagged(doc, c, "eventsRec") {
        events(tree, doc, c, p, numero, obsolete)
    } else {
        assert(kept_layout(tree@, tree@));
        Ok(())
    }
}

/// Reads the children of the document node `node` for the tree node
/// `parent`, which stands for it: each "clade" among them becomes a new
/// child of `parent`, labelled "N" and the number that `numero` counts, and
/// is read in turn; an "id" or a "name" names `parent`; an "eventsRec" gives
/// it its event, its species and, for a leaf, its name. The nodes added for
/// speciation losses of the old format are collected in `obsolete`.
///
/// Fails where the document cannot be read; the tree then holds what was
/// read before.
pub fn xml2tree(
    doc: &XmlDoc,
    node: usize,
    parent: usize,
    numero: &mut usize,
    tree: &mut ArenaTree<String>,
    obsolete: &mut Vec<usize>,
) -> (r: Result<(), ReadError>)
    requires
        old(tree).wf(),
        parent < old(tree)@.len(),
        node < doc@.len(),
        ordered(doc@),
    ensures
        match r {
            Ok(()) => {
                &&& read_children(
                    reading(old(tree), old(obsolete)@, *old(numero) as nat),
                    doc@,
                    node as int,
                    doc@[node as int].children.len(),
                    parent as int,
                ) == Ok::<Reading, ReadError>(
                    reading(final(tree), final(obsolete)@, *final(numero) as nat),
                )
                &&& final(tree).wf()
                &&& final(tree)@.len() >= old(tree)@.len()
                &&& kept_layout(old(tree)@, final(tree)@)
            },
            Err(e) => read_children(
                reading(old(tree), old(obsolete)@, *old(numero) as nat),
                doc@,
                node as int,
                doc@[node as int].children.len(),
                parent as int,
            ) == Err::<Reading, ReadError>(e),
        },
    decreases doc@.len() - node, 0nat, doc@[node as int].children.len(),
{
    let ghost t0 = *tree;
    let ghost r0 = reading(tree, obsolete@, *numero as nat);
    let ghost d = doc@;
    let ghost kids = d[node as int].children;
    assert(kids == doc.nodes@[node as int].children@);
    let count = doc.nodes[node].children.len();
    let mut k: usize = 0;
    assert(kept_layout(t0@, tree@));
    while k < count
        invariant
            k <= count,
            count == kids.len(),
            d == doc@,
            node < d.len(),
            kids == d[node as int].children,
            kids == doc.nodes@[node as int].children@,
            ordered(d),
            tree.wf(),
            parent < t0@.len(),
            t0@.len() <= tree@.len(),
            kept_layout(t0@, tree@),
            r0 == reading(old(tree), old(obsolete)@, *old(numero) as nat),
            read_children(r0, d, node as int, k as nat, parent as int) == Ok::<Reading, ReadError>(
                reading(tree, obsolete@, *numero as nat),
            ),
        decreases count - k,
    {
        let c = doc.nodes[node].children[k];
        let ghost t1 = *tree;
        proof {
            assert(node < kids[k as int] < d.len());
        }
        match read_one(doc, c, parent, numero, tree, obsolete) {
            Ok(()) => {
                proof {
                    lemma_kept_twice(t0@, t1@, tree@);
                }
            },
            Err(e) => {
                proof {
                    assert(read_children(r0, d, node as int, (k + 1) as nat, parent as int)
                        == Err::<Reading, ReadError>(e));
                    lemma_children_fail(
                        r0,
                        d,
                        node as int,
                        (k + 1) as nat,
                        count as nat,
                        parent as int,
                    );
                }
                return Err(e);
            },
        }
        k += 1;
    }
    Ok(())
}

} // verus!
