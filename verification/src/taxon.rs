//! Reading a taxonomy: each taxon becomes a node below the node of its
//! parent.

use vstd::prelude::*;
use vstd::string::StringExecFns;
use crate::arena::ArenaTree;
use crate::event::Event;
use crate::label::{digits, numbered};
use crate::node::Noeud;
use crate::recphylo::{has_val, holds, sketches, ReadError, Sketch};

verus! {

/// A node that holds `val` and nothing else.
pub open spec fn bare(val: Seq<char>) -> Sketch {
    Sketch {
        parent: None,
        children: Seq::empty(),
        name: "Undefined"@,
        val: val,
        e: Event::Undef,
        location: "Undefined"@,
        transfer: false,
    }
}

/// The value that the node of taxon `n`, named `name`, holds: "N", the
/// number, "_" and the name.
pub open spec fn taxon_val(n: nat, name: Seq<char>) -> Seq<char> {
    seq!['N'] + digits(n) + seq!['_'] + name
}

/// The first node that holds `val`.
pub open spec fn holder(g: Seq<Sketch>, val: Seq<char>) -> int {
    choose|i: int|
        0 <= i < g.len() && (#[trigger] g[i]).val == val && forall|j: int|
            0 <= j < i ==> (#[trigger] g[j]).val != val
}

/// The nodes `g` with a new node that holds `val` and, where no node holds
/// `parent_val` by then, one more that does.
pub open spec fn sprouted(g: Seq<Sketch>, val: Seq<char>, parent_val: Seq<char>) -> Seq<Sketch> {
    let g1 = g.push(bare(val));
    if holds(g1, parent_val) {
        g1
    } else {
        g1.push(bare(parent_val))
    }
}

/// The node below which the new node goes: the first that holds
/// `parent_val` once the new node is there, or the one added for it.
pub open spec fn above_of(g: Seq<Sketch>, val: Seq<char>, parent_val: Seq<char>) -> int {
    let g1 = g.push(bare(val));
    if holds(g1, parent_val) {
        holder(g1, parent_val)
    } else {
        g1.len() as int
    }
}

/// The nodes `g` once node `c` has been tied below node `p`: `p` takes the
/// name `parent_name` and `c` as its last child, `c` takes `p` as its parent
/// and the name `name`.
pub open spec fn tied_below(
    g: Seq<Sketch>,
    c: int,
    p: int,
    name: Seq<char>,
    parent_name: Seq<char>,
) -> Seq<Sketch> {
    let g1 = g.update(
        p,
        (Sketch { name: parent_name, children: g[p].children.push(c as usize), ..g[p] }),
    );
    g1.update(c, (Sketch { parent: Some(p as usize), name: name, ..g1[c] }))
}

/// The nodes `g` once the taxon that holds `val` and is named `name` has
/// been added below the node that holds `parent_val`, which is added too
/// where no node holds that, and which is named `parent_name`.
pub open spec fn taxon_added(
    g: Seq<Sketch>,
    val: Seq<char>,
    name: Seq<char>,
    parent_val: Seq<char>,
    parent_name: Seq<char>,
) -> Result<Seq<Sketch>, ReadError> {
    if holds(g, val) {
        Err(ReadError::DuplicateNode)
    } else {
        Ok(
            tied_below(
                sprouted(g, val, parent_val),
                g.len() as int,
                above_of(g, val, parent_val),
                name,
                parent_name,
            ),
        )
    }
}

/// What a taxon hangs below: the value that the node of its parent holds,
/// the name of the parent and the distance to it; for a taxon without
/// parent, those of a taxon 0 named "root" at the distance -1000.
pub open spec fn hangs_below(parent: Option<(usize, String, i64)>) -> (Seq<char>, Seq<char>, i64) {
    match parent {
        Some((id, parent_name, dist)) => (taxon_val(id as nat, parent_name@), parent_name@, dist),
        None => (taxon_val(0, "root"@), "root"@, -1000i64),
    }
}

/// The nodes `b` are the nodes `a`, which have kept all but their links and
/// names, and after them nodes that are as `new` makes them but for their
/// links, their names, what they hold and the length of their branch.
pub open spec fn kept_but_length(a: Seq<Noeud<String>>, b: Seq<Noeud<String>>) -> bool {
    &&& a.len() <= b.len()
    &&& forall|i: int| 0 <= i < a.len() ==> (#[trigger] b[i]).same_but_plan(a[i])
    &&& forall|i: int|
        a.len() <= i < b.len() ==> {
            &&& (#[trigger] b[i]).idx == i
            &&& b[i].x == 0 && b[i].y == 0 && b[i].xmod == 0 && b[i].ymod == 0
            &&& b[i].width == 15
            &&& b[i].height == 15
            &&& b[i].nbg == 0
            &&& b[i].nodes@ == Seq::<(usize, usize)>::empty()
        }
}

fn taxon_label(n: usize, name: &String) -> (r: String)
    ensures
        r@ == taxon_val(n as nat, name@),
{
    proof {
        reveal_strlit("N");
        reveal_strlit("_");
    }
    let r = numbered("N", n).concat("_").concat(name.as_str());
    assert(r@ =~= taxon_val(n as nat, name@));
    r
}

fn sprout(tree: &mut ArenaTree<String>, val: String, parent_val: String) -> (r: (usize, usize))
    requires
        !holds(sketches(old(tree)@), val@),
    ensures
        r.0 == old(tree)@.len(),
        r.1 == above_of(sketches(old(tree)@), val@, parent_val@),
        r.0 < final(tree)@.len(),
        r.1 < final(tree)@.len(),
        sketches(final(tree)@) == sprouted(sketches(old(tree)@), val@, parent_val@),
        kept_but_length(old(tree)@, final(tree)@),
        forall|i: int| old(tree)@.len() <= i < final(tree)@.len() ==> (#[trigger] final(tree)@[i]).l == 0,
{
    let ghost t0 = *tree;
    let ghost g = sketches(tree@);
    let ghost wanted = val@;
    let ghost parent_wanted = parent_val@;
    proof {
        assert forall|j: int| 0 <= j < tree@.len() implies (#[trigger] tree@[j]).val@ != val@ by {
            assert(g[j].val == tree@[j].val@);
        }
    }
    let child = tree.new_node(val);
    let ghost t1 = *tree;
    let ghost g1 = sketches(tree@);
    proof {
        assert(g1 =~= g.push(bare(wanted)));
    }
    let above = tree.node(parent_val);
    proof {
        let g2 = sketches(tree@);
        if holds(g1, parent_wanted) {
            let k = choose|k: int| 0 <= k < g1.len() && (#[trigger] g1[k]).val == parent_wanted;
            assert(t1@[k].val@ == parent_wanted);
            assert(above < t1@.len());
            let h = holder(g1, parent_wanted);
            assert(g1[above as int].val == parent_wanted);
            assert forall|j: int| 0 <= j < above implies (#[trigger] g1[j]).val
                != parent_wanted by {
                assert(t1@[j].val@ != parent_wanted);
            }
            assert(h == above) by {
                if h < above {
                }
                if above < h {
                }
            }
        } else {
            assert(above >= t1@.len()) by {
                if above < t1@.len() {
                    assert(g1[above as int].val == parent_wanted);
                }
            }
            assert(g2 =~= g1.push(bare(parent_wanted)));
        }
    }
    (child, above)
}

fn tie(
    tree: &mut ArenaTree<String>,
    child: usize,
    above: usize,
    name: String,
    parent_name: String,
    dist: i64,
)
    requires
        child < old(tree)@.len(),
        above < old(tree)@.len(),
    ensures
        final(tree)@.len() == old(tree)@.len(),
        sketches(final(tree)@) == tied_below(
            sketches(old(tree)@),
            child as int,
            above as int,
            name@,
            parent_name@,
        ),
        final(tree)@[child as int].l == dist,
        forall|i: int|
            0 <= i < old(tree)@.len() ==> (#[trigger] final(tree)@[i]).idx == old(tree)@[i].idx
                && final(tree)@[i].val == old(tree)@[i].val && final(tree)@[i].e == old(tree)@[i].e
                && final(tree)@[i].location == old(tree)@[i].location && final(tree)@[i].nbg
                == old(tree)@[i].nbg && final(tree)@[i].nodes == old(tree)@[i].nodes && final(tree)@[i].is_a_transfert == old(tree)@[i].is_a_transfert && final(tree)@[i].width == old(tree)@[i].width && final(tree)@[i].height == old(tree)@[i].height && final(tree)@[i].same_place(old(tree)@[i]) && (i != child ==> final(tree)@[i].l == old(tree)@[i].l && final(tree)@[i].parent == old(tree)@[i].parent),
{
    let ghost g = sketches(tree@);
    let ghost named = name@;
    let ghost parent_named = parent_name@;
    tree.arena[above].name = parent_name;
    tree.arena[above].children.push(child);
    tree.arena[child].parent = Some(above);
    tree.arena[child].l = dist;
    tree.arena[child].name = name;
    proof {
        let g1 = g.update(
            above as int,
            (Sketch {
                name: parent_named,
                children: g[above as int].children.push(child),
                ..g[above as int]
            }),
        );
        assert(sketches(tree@) =~= g1.update(
            child as int,
            (Sketch { parent: Some(above), name: named, ..g1[child as int] }),
        ));
    }
}

/// Adds the taxon `n`, named `name`, to the tree: a new node that holds "N",
/// the number, "_" and the name, below the node that holds the same of its
/// parent, which is added where the tree has none. A taxon without parent
/// goes below the node of a taxon 0 named "root", at the distance -1000.
/// The parent is given by its number, its name and the distance to it.
///
/// Fails, and changes nothing, where a node holds already what the new node
/// would hold.
pub fn add_taxon(
    tree: &mut ArenaTree<String>,
    n: usize,
    name: String,
    parent: Option<(usize, String, i64)>,
) -> (r: Result<usize, ReadError>)
    ensures
        match r {
            Ok(c) => {
                &&& c == old(tree)@.len()
                &&& taxon_added(
                    sketches(old(tree)@),
                    taxon_val(n as nat, name@),
                    name@,
                    hangs_below(parent).0,
                    hangs_below(parent).1,
                ) == Ok::<Seq<Sketch>, ReadError>(sketches(final(tree)@))
                &&& final(tree)@[c as int].l == hangs_below(parent).2
                &&& final(tree)@.len() > old(tree)@.len()
                &&& forall|i: int|
                    0 <= i < old(tree)@.len() ==> (#[trigger] final(tree)@[i]).same_but_plan(
                        old(tree)@[i],
                    )
            },
            Err(e) => e == ReadError::DuplicateNode && holds(
                sketches(old(tree)@),
                taxon_val(n as nat, name@),
            ) && *final(tree) == *old(tree),
        },
{
    let ghost t0 = *tree;
    let val = taxon_label(n, &name);
    if has_val(tree, &val) {
        return Err(ReadError::DuplicateNode);
    }
    let (parent_val, parent_name, parent_dist) = match parent {
        Some((id, parent_name, dist)) => (taxon_label(id, &parent_name), parent_name, dist),
        None => {
            let root = "root".to_owned();
            (taxon_label(0, &root), root, -1000)
        },
    };
    let (child, above) = sprout(tree, val, parent_val);
    let ghost t1 = *tree;
    tie(tree, child, above, name, parent_name, parent_dist);
    proof {
        assert forall|i: int| 0 <= i < t0@.len() implies (#[trigger] tree@[i]).same_but_plan(
            t0@[i],
        ) by {
            assert(t1@[i].same_but_plan(t0@[i]));
        }
    }
    Ok(child)
}

} // verus!
