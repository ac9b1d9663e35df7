//! Reconciled trees of the old format: a speciation followed by a loss was
//! written as one event, and is read as a node beside the duplication that
//! it should stand above.

use vstd::prelude::*;
use crate::arena::ArenaTree;
use crate::event::Event;
use crate::node::Noeud;
use crate::recphylo::{kept_layout, sketches, Sketch};

verus! {

/// Why a tree of the old format could not be put right.
#[derive(Debug, Clone, Copy, PartialEq, Eq, Structural)]
pub enum RepairError {
    /// A node added for a speciation loss is no node of the tree, or has no
    /// parent.
    NoParent,
    /// The parent of a node added for a speciation loss has not three
    /// children.
    NotThreeChildren,
    /// The node added for a speciation loss has no child, or a link of the
    /// tree leads out of it.
    NoLoss,
    /// The species of a speciation loss is no node of the species tree.
    UnknownSpecies,
    /// The species of a speciation loss has not two children.
    NotTwoSpecies,
}

/// The names of the two children of the first node of the species tree that
/// is named `name`.
#[verifier::opaque]
pub open spec fn species_below(sp: Seq<Noeud<String>>, name: Seq<char>) -> Result<
    (Seq<char>, Seq<char>),
    RepairError,
> {
    if !(exists|i: int| 0 <= i < sp.len() && (#[trigger] sp[i]).name@ == name) {
        Err(RepairError::UnknownSpecies)
    } else {
        let s = choose|i: int|
            0 <= i < sp.len() && (#[trigger] sp[i]).name@ == name && forall|j: int|
                0 <= j < i ==> (#[trigger] sp[j]).name@ != name;
        if sp[s].children@.len() < 2 || sp[s].children@[0] >= sp.len() || sp[s].children@[1]
            >= sp.len() {
            Err(RepairError::NotTwoSpecies)
        } else {
            Ok((sp[sp[s].children@[0] as int].name@, sp[sp[s].children@[1] as int].name@))
        }
    }
}

/// The last of the first `k` among `kids` that is a duplication, or 0.
pub open spec fn last_duplication(g: Seq<Sketch>, kids: Seq<usize>, k: nat) -> usize
    decreases k,
{
    if k == 0 {
        0
    } else if g[kids[k - 1] as int].e == Event::Duplication {
        kids[k - 1]
    } else {
        last_duplication(g, kids, (k - 1) as nat)
    }
}

/// The last of the first `k` among `kids` that is among `obsolete`, or 0.
pub open spec fn last_obsolete(obsolete: Seq<usize>, kids: Seq<usize>, k: nat) -> usize
    decreases k,
{
    if k == 0 {
        0
    } else if obsolete.contains(kids[k - 1]) {
        kids[k - 1]
    } else {
        last_obsolete(obsolete, kids, (k - 1) as nat)
    }
}

/// The first `k` of `kids` without `gone`.
pub open spec fn without(kids: Seq<usize>, gone: usize, k: nat) -> Seq<usize>
    decreases k,
{
    if k == 0 {
        Seq::empty()
    } else if kids[k - 1] == gone {
        without(kids, gone, (k - 1) as nat)
    } else {
        without(kids, gone, (k - 1) as nat).push(kids[k - 1])
    }
}

/// Of the three children of node `no`: the duplication, the node added for
/// a speciation loss, and the loss that hangs below that.
pub open spec fn picked(g: Seq<Sketch>, obsolete: Seq<usize>, no: int) -> Result<
    (usize, usize, usize),
    RepairError,
> {
    let kids = g[no].children;
    if kids.len() != 3 {
        Err(RepairError::NotThreeChildren)
    } else if kids[0] >= g.len() || kids[1] >= g.len() || kids[2] >= g.len() {
        Err(RepairError::NoLoss)
    } else {
        let moved = last_duplication(g, kids, 3);
        let speciation = last_obsolete(obsolete, kids, 3);
        if moved >= g.len() || speciation >= g.len() || g[speciation as int].children.len() == 0
            || g[speciation as int].children[0] >= g.len() {
            Err(RepairError::NoLoss)
        } else {
            Ok((moved, speciation, g[speciation as int].children[0]))
        }
    }
}

/// The gene tree `g` once node `moved` has gone from below node `no` to
/// below node `speciation`, as its last child.
pub open spec fn relinked(g: Seq<Sketch>, no: int, moved: usize, speciation: usize) -> Seq<Sketch> {
    let g1 = g.update(
        speciation as int,
        (Sketch { children: g[speciation as int].children.push(moved), ..g[speciation as int] }),
    );
    let g2 = g1.update(moved as int, (Sketch { parent: Some(speciation), ..g1[moved as int] }));
    g2.update(
        no,
        (Sketch { children: without(g2[no].children, moved, g2[no].children.len()), ..g2[no] }),
    )
}

/// The gene tree `g` once node `loss` has been given its species: of the
/// species `left` and `right`, the one that node `moved` is not in.
pub open spec fn placed_loss(
    g: Seq<Sketch>,
    moved: usize,
    loss: usize,
    left: Seq<char>,
    right: Seq<char>,
) -> Seq<Sketch> {
    g.update(
        loss as int,
        (Sketch {
            location: if g[moved as int].location == left {
                right
            } else {
                left
            },
            ..g[loss as int]
        }),
    )
}

/// The gene tree `g` put right below node `no`, the parent of a node added
/// for a speciation loss: of its three children, the duplication goes below
/// the node added for the loss, and the loss that hangs there is given, of
/// the two species below that of the speciation, the one that the
/// duplication is not in.
pub open spec fn repaired(
    g: Seq<Sketch>,
    sp: Seq<Noeud<String>>,
    obsolete: Seq<usize>,
    no: int,
) -> Result<Seq<Sketch>, RepairError> {
    match picked(g, obsolete, no) {
        Err(e) => Err(e),
        Ok((moved, speciation, loss)) => {
            let g1 = relinked(g, no, moved, speciation);
            match species_below(sp, g1[speciation as int].location) {
                Err(e) => Err(e),
                Ok((left, right)) => Ok(placed_loss(g1, moved, loss, left, right)),
            }
        },
    }
}

/// The parents of the first `k` of the nodes `obsolete`.
pub open spec fn parents_of(g: Seq<Sketch>, obsolete: Seq<usize>, k: nat) -> Result<
    Seq<usize>,
    RepairError,
>
    decreases k,
{
    if k == 0 {
        Ok(Seq::empty())
    } else {
        match parents_of(g, obsolete, (k - 1) as nat) {
            Err(e) => Err(e),
            Ok(found) => if obsolete[k - 1] >= g.len() || g[obsolete[k - 1] as int].parent.is_none() {
                Err(RepairError::NoParent)
            } else {
                Ok(found.push(g[obsolete[k - 1] as int].parent.unwrap()))
            },
        }
    }
}

/// The gene tree `g` put right below the first `k` of the nodes `nos`, one
/// after the other.
pub open spec fn repaired_all(
    g: Seq<Sketch>,
    sp: Seq<Noeud<String>>,
    obsolete: Seq<usize>,
    nos: Seq<usize>,
    k: nat,
) -> Result<Seq<Sketch>, RepairError>
    decreases k,
{
    if k == 0 {
        Ok(g)
    } else {
        match repaired_all(g, sp, obsolete, nos, (k - 1) as nat) {
            Err(e) => Err(e),
            Ok(g1) => if nos[k - 1] >= g1.len() {
                Err(RepairError::NoParent)
            } else {
                repaired(g1, sp, obsolete, nos[k - 1] as int)
            },
        }
    }
}

/// The gene tree `g` of the old format put right: below the parent of each
/// of the nodes `obsolete`, in turn.
pub open spec fn put_right(g: Seq<Sketch>, sp: Seq<Noeud<String>>, obsolete: Seq<usize>) -> Result<
    Seq<Sketch>,
    RepairError,
> {
    match parents_of(g, obsolete, obsolete.len()) {
        Err(e) => Err(e),
        Ok(nos) => repaired_all(g, sp, obsolete, nos, nos.len()),
    }
}

fn is_among(list: &Vec<usize>, x: usize) -> (r: bool)
    ensures
        r == list@.contains(x),
{
    let mut i: usize = 0;
    while i < list.len()
        invariant
            i <= list@.len(),
            forall|j: int| 0 <= j < i ==> list@[j] != x,
        decreases list@.len() - i,
    {
        if list[i] == x {
            return true;
        }
        i += 1;
    }
    false
}

fn below(species_tree: &ArenaTree<String>, name: &String) -> (r: Result<(String, String), RepairError>)
    ensures
        match r {
            Ok((l, r2)) => species_below(species_tree@, name@) == Ok::<
                (Seq<char>, Seq<char>),
                RepairError,
            >((l@, r2@)),
            Err(e) => species_below(species_tree@, name@) == Err::<
                (Seq<char>, Seq<char>),
                RepairError,
            >(e),
        },
{
    reveal(species_below);
    match species_tree.find_index(name) {
        None => Err(RepairError::UnknownSpecies),
        Some(s) => {
            proof {
                let sp = species_tree@;
                let t = choose|i: int|
                    0 <= i < sp.len() && (#[trigger] sp[i]).name@ == name@ && forall|j: int|
                        0 <= j < i ==> (#[trigger] sp[j]).name@ != name@;
                assert(t == s) by {
                    if t < s {
                    }
                    if s < t {
                    }
                }
            }
            if species_tree.arena[s].children.len() < 2 {
                return Err(RepairError::NotTwoSpecies);
            }
            let left = species_tree.arena[s].children[0];
            let right = species_tree.arena[s].children[1];
            if left >= species_tree.arena.len() || right >= species_tree.arena.len() {
                return Err(RepairError::NotTwoSpecies);
            }
            Ok((species_tree.arena[left].name.clone(), species_tree.arena[right].name.clone()))
        },
    }
}

fn pick(gene_tree: &ArenaTree<String>, obsolete: &Vec<usize>, no: usize) -> (r: Result<
    (usize, usize, usize),
    RepairError,
>)
    requires
        no < gene_tree@.len(),
    ensures
        r == picked(sketches(gene_tree@), obsolete@, no as int),
        r matches Ok((moved, speciation, loss)) ==> moved < gene_tree@.len() && speciation
            < gene_tree@.len() && loss < gene_tree@.len(),
{
    let ghost g = sketches(gene_tree@);
    let ghost kids = g[no as int].children;
    assert(kids == gene_tree@[no as int].children@);
    let total = gene_tree.arena.len();
    if gene_tree.arena[no].children.len() != 3 {
        return Err(RepairError::NotThreeChildren);
    }
    let first = gene_tree.arena[no].children[0];
    let second = gene_tree.arena[no].children[1];
    let third = gene_tree.arena[no].children[2];
    if first >= total || second >= total || third >= total {
        return Err(RepairError::NoLoss);
    }
    let mut to_move_node: usize = 0;
    let mut specloss_node: usize = 0;
    let mut k: usize = 0;
    while k < 3
        invariant
            k <= 3,
            no < gene_tree@.len(),
            total == gene_tree@.len(),
            g == sketches(gene_tree@),
            kids == gene_tree@[no as int].children@,
            kids.len() == 3,
            kids[0] < total && kids[1] < total && kids[2] < total,
            to_move_node == last_duplication(g, kids, k as nat),
            specloss_node == last_obsolete(obsolete@, kids, k as nat),
        decreases 3 - k,
    {
        let child = gene_tree.arena[no].children[k];
        assert(g[child as int].e == gene_tree@[child as int].e);
        match gene_tree.arena[child].e {
            Event::Duplication => {
                to_move_node = child;
            },
            _ => {},
        }
        if is_among(obsolete, child) {
            specloss_node = child;
        }
        k += 1;
    }
    if to_move_node >= total || specloss_node >= total {
        return Err(RepairError::NoLoss);
    }
    assert(g[specloss_node as int].children == gene_tree@[specloss_node as int].children@);
    if gene_tree.arena[specloss_node].children.len() == 0 {
        return Err(RepairError::NoLoss);
    }
    let loss_node = gene_tree.arena[specloss_node].children[0];
    if loss_node >= total {
        return Err(RepairError::NoLoss);
    }
    Ok((to_move_node, specloss_node, loss_node))
}

fn relink(gene_tree: &mut ArenaTree<String>, no: usize, moved: usize, speciation: usize)
    requires
        no < old(gene_tree)@.len(),
        moved < old(gene_tree)@.len(),
        speciation < old(gene_tree)@.len(),
    ensures
        final(gene_tree)@.len() == old(gene_tree)@.len(),
        sketches(final(gene_tree)@) == relinked(
            sketches(old(gene_tree)@),
            no as int,
            moved,
            speciation,
        ),
        kept_layout(old(gene_tree)@, final(gene_tree)@),
{
    let ghost g = sketches(gene_tree@);
    gene_tree.arena[speciation].children.push(moved);
    gene_tree.arena[moved].parent = Some(speciation);
    let ghost g2 = sketches(gene_tree@);
    proof {
        let g1 = g.update(
            speciation as int,
            (Sketch { children: g[speciation as int].children.push(moved), ..g[speciation as int] }),
        );
        assert(g2 =~= g1.update(moved as int, (Sketch { parent: Some(speciation), ..g1[moved as int] })));
    }
    let ghost before = gene_tree@[no as int].children@;
    let count = gene_tree.arena[no].children.len();
    let mut left_over: Vec<usize> = Vec::new();
    let mut i: usize = 0;
    while i < count
        invariant
            i <= count,
            no < gene_tree@.len(),
            before == gene_tree@[no as int].children@,
            count == before.len(),
            left_over@ == without(before, moved, i as nat),
        decreases count - i,
    {
        let x = gene_tree.arena[no].children[i];
        if x != moved {
            left_over.push(x);
        }
        i += 1;
    }
    gene_tree.arena[no].children = left_over;
    proof {
        assert(g2[no as int].children == before);
        assert(sketches(gene_tree@) =~= g2.update(
            no as int,
            (Sketch {
                children: without(g2[no as int].children, moved, g2[no as int].children.len()),
                ..g2[no as int]
            }),
        ));
    }
}

fn place_loss(
    gene_tree: &mut ArenaTree<String>,
    moved: usize,
    loss: usize,
    left: String,
    right: String,
)
    requires
        moved < old(gene_tree)@.len(),
        loss < old(gene_tree)@.len(),
    ensures
        final(gene_tree)@.len() == old(gene_tree)@.len(),
        sketches(final(gene_tree)@) == placed_loss(
            sketches(old(gene_tree)@),
            moved,
            loss,
            left@,
            right@,
        ),
        kept_layout(old(gene_tree)@, final(gene_tree)@),
{
    let ghost g = sketches(gene_tree@);
    let loss_species = if gene_tree.arena[moved].location == left {
        right
    } else {
        left
    };
    let ghost wanted = loss_species@;
    gene_tree.arena[loss].location = loss_species;
    proof {
        assert(sketches(gene_tree@) =~= g.update(
            loss as int,
            (Sketch { location: wanted, ..g[loss as int] }),
        ));
    }
}

fn repair(
    gene_tree: &mut ArenaTree<String>,
    species_tree: &ArenaTree<String>,
    obsolete: &Vec<usize>,
    no: usize,
) -> (r: Result<(), RepairError>)
    requires
        no < old(gene_tree)@.len(),
    ensures
        match r {
            Ok(()) => repaired(sketches(old(gene_tree)@), species_tree@, obsolete@, no as int)
                == Ok::<Seq<Sketch>, RepairError>(sketches(final(gene_tree)@)) && final(gene_tree)@.len() == old(gene_tree)@.len() && kept_layout(old(gene_tree)@, final(gene_tree)@),
            Err(e) => repaired(sketches(old(gene_tree)@), species_tree@, obsolete@, no as int)
                == Err::<Seq<Sketch>, RepairError>(e),
        },
{
    let ghost t0 = *gene_tree;
    let (moved, speciation, loss) = match pick(gene_tree, obsolete, no) {
        Ok(found) => found,
        Err(e) => {
            return Err(e);
        },
    };
    relink(gene_tree, no, moved, speciation);
    let ghost t1 = *gene_tree;
    let (left, right) = match below(species_tree, &gene_tree.arena[speciation].location) {
        Ok(found) => found,
        Err(e) => {
            return Err(e);
        },
    };
    place_loss(gene_tree, moved, loss, left, right);
    proof {
        crate::recphylo::lemma_kept_twice(t0@, t1@, gene_tree@);
    }
    Ok(())
}

/// Puts a gene tree of the old format right: for each node added for a
/// speciation loss, in turn, the duplication that stands beside it goes
/// below it, and the loss below it is given its species, which is the one
/// that the duplication is not in.
///
/// Fails where the tree is not as the old format makes it; it then holds
/// what was put right before.
pub fn check_for_obsolete(
    gene_tree: &mut ArenaTree<String>,
    species_tree: &mut ArenaTree<String>,
    obsolete: &Vec<usize>,
) -> (r: Result<(), RepairError>)
    ensures
        *final(species_tree) == *old(species_tree),
        match r {
            Ok(()) => put_right(sketches(old(gene_tree)@), old(species_tree)@, obsolete@) == Ok::<
                Seq<Sketch>,
                RepairError,
            >(sketches(final(gene_tree)@)) && kept_layout(old(gene_tree)@, final(gene_tree)@),
            Err(e) => put_right(sketches(old(gene_tree)@), old(species_tree)@, obsolete@)
                == Err::<Seq<Sketch>, RepairError>(e),
        },
{
    let ghost t0 = *gene_tree;
    let ghost g = sketches(gene_tree@);
    let mut obs: Vec<usize> = Vec::new();
    let mut k: usize = 0;
    while k < obsolete.len()
        invariant
            k <= obsolete@.len(),
            *gene_tree == t0,
            g == sketches(t0@),
            parents_of(g, obsolete@, k as nat) == Ok::<Seq<usize>, RepairError>(obs@),
        decreases obsolete@.len() - k,
    {
        let index = obsolete[k];
        if index >= gene_tree.arena.len() {
            proof {
                lemma_parents_fail(g, obsolete@, (k + 1) as nat, obsolete@.len());
            }
            return Err(RepairError::NoParent);
        }
        assert(g[index as int].parent == t0@[index as int].parent);
        match gene_tree.arena[index].parent {
            Some(p) => {
                obs.push(p);
            },
            None => {
                proof {
                    lemma_parents_fail(g, obsolete@, (k + 1) as nat, obsolete@.len());
                }
                return Err(RepairError::NoParent);
            },
        }
        k += 1;
    }
    let ghost nos = obs@;
    let mut k: usize = 0;
    assert(kept_layout(t0@, gene_tree@));
    while k < obs.len()
        invariant
            k <= nos.len(),
            nos == obs@,
            g == sketches(old(gene_tree)@),
            t0 == *old(gene_tree),
            kept_layout(t0@, gene_tree@),
            parents_of(g, obsolete@, obsolete@.len()) == Ok::<Seq<usize>, RepairError>(nos),
            repaired_all(g, species_tree@, obsolete@, nos, k as nat) == Ok::<
                Seq<Sketch>,
                RepairError,
            >(sketches(gene_tree@)),
        decreases nos.len() - k,
    {
        let no = obs[k];
        let ghost t1 = *gene_tree;
        if no >= gene_tree.arena.len() {
            proof {
                lemma_repairs_fail(g, species_tree@, obsolete@, nos, (k + 1) as nat, nos.len());
            }
            return Err(RepairError::NoParent);
        }
        match repair(gene_tree, species_tree, obsolete, no) {
            Ok(()) => {
                proof {
                    crate::recphylo::lemma_kept_twice(t0@, t1@, gene_tree@);
                }
            },
            Err(e) => {
                proof {
                    lemma_repairs_fail(g, species_tree@, obsolete@, nos, (k + 1) as nat, nos.len());
                }
                return Err(e);
            },
        }
        k += 1;
    }
    Ok(())
}

/// Parents that cannot be found up to one of the nodes cannot be found
/// further.
pub proof fn lemma_parents_fail(g: Seq<Sketch>, obsolete: Seq<usize>, k: nat, n: nat)
    requires
        k <= n,
        parents_of(g, obsolete, k).is_err(),
    ensures
        parents_of(g, obsolete, n) == parents_of(g, obsolete, k),
    decreases n - k,
{
    if k < n {
        lemma_parents_fail(g, obsolete, k, (n - 1) as nat);
    }
}

/// A tree that cannot be put right up to one of the nodes cannot be put
/// right further.
pub proof fn lemma_repairs_fail(
    g: Seq<Sketch>,
    sp: Seq<Noeud<String>>,
    obsolete: Seq<usize>,
    nos: Seq<usize>,
    k: nat,
    n: nat,
)
    requires
        k <= n,
        repaired_all(g, sp, obsolete, nos, k).is_err(),
    ensures
        repaired_all(g, sp, obsolete, nos, n) == repaired_all(g, sp, obsolete, nos, k),
    decreases n - k,
{
    if k < n {
        lemma_repairs_fail(g, sp, obsolete, nos, k, (n - 1) as nat);
    }
}

} // verus!
