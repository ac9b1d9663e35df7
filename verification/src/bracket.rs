//! Bracket notation: the tree that a text stands for.

use vstd::prelude::*;
use vstd::string::StrSliceExecFns;
use crate::arena::ArenaTree;
use crate::label::{find_char, found, label_of, lacks, lemma_labels_differ, node_label};
use crate::newick::{
    body_end, closes, find_left_right, first_top_comma, is_splittable, last_close, splittable,
    top_comma,
};
use crate::node::Noeud;

verus! {

/// The place of the comma at which the text `s` is split.
pub open spec fn comma_of(s: Seq<char>) -> int {
    choose|c: int| first_top_comma(s, c)
}

/// The left subtree of the text `s`: what stands between its opening bracket
/// and the comma at which it is split.
pub open spec fn left_part(s: Seq<char>) -> Seq<char> {
    s.subrange(1, comma_of(s))
}

/// What follows the comma at which the text `s` is split, up to its end.
pub open spec fn rest_part(s: Seq<char>) -> Seq<char> {
    s.subrange(comma_of(s) + 1, body_end(s))
}

/// The text `t` holds a closing bracket.
pub open spec fn closed(t: Seq<char>) -> bool {
    exists|k: int| last_close(t, k)
}

/// The place of the last closing bracket of the text `t`.
pub open spec fn close_of(t: Seq<char>) -> int {
    choose|k: int| last_close(t, k)
}

/// The right subtree of the text `s`: what follows the comma at which it is
/// split, up to its last closing bracket.
pub open spec fn right_part(s: Seq<char>) -> Seq<char> {
    let rest = rest_part(s);
    if closed(rest) {
        rest.subrange(0, close_of(rest))
    } else {
        rest
    }
}

/// What trails the last closing bracket of the text `s`: the name of its
/// root and the length of the branch above it.
pub open spec fn trail_part(s: Seq<char>) -> Seq<char> {
    let rest = rest_part(s);
    if closed(rest) {
        rest.subrange(close_of(rest) + 1, rest.len() as int)
    } else {
        Seq::empty()
    }
}

/// The text `t` is a leaf, or a tree in bracket notation.
pub open spec fn side_ok(t: Seq<char>) -> bool
    decreases t.len(), 1nat,
{
    lacks(t, ',') || bracketed(t)
}

/// The text `s` is a tree in bracket notation: it can be split, and each of
/// its two subtrees is a leaf, which holds no comma, or such a tree.
pub open spec fn bracketed(s: Seq<char>) -> bool
    decreases s.len(), 0nat,
{
    splittable(s) && {
        proof {
            lemma_parts_shorter(s);
        }
        side_ok(left_part(s)) && side_ok(right_part(s))
    }
}

/// The parts of a text that can be split are shorter than the text, even
/// taken together.
pub proof fn lemma_parts_shorter(s: Seq<char>)
    requires
        splittable(s),
    ensures
        first_top_comma(s, comma_of(s)),
        1 <= comma_of(s) < body_end(s),
        left_part(s).len() + right_part(s).len() + trail_part(s).len() + 2 <= s.len(),
        closed(rest_part(s)) ==> last_close(rest_part(s), close_of(rest_part(s))),
{
    let c = choose|c: int| #[trigger] first_top_comma(s, c) && c + 1 <= body_end(s);
    assert(first_top_comma(s, c));
    let d = comma_of(s);
    assert(d == c) by {
        if d < c {
            assert(!top_comma(s, d));
        }
        if c < d {
            assert(!top_comma(s, c));
        }
    }
    assert(s[0] == '(');
}

/// The part of the text `t` that names a node: what precedes its first
/// colon, or all of it where it holds none.
pub open spec fn name_part(t: Seq<char>) -> Seq<char> {
    if lacks(t, ':') {
        t
    } else {
        t.subrange(0, choose|j: int| found(t, ':', j))
    }
}

/// The part of the text `t` that gives the length of a branch: what follows
/// its first colon.
pub open spec fn length_part(t: Seq<char>) -> Seq<char> {
    t.subrange((choose|j: int| found(t, ':', j)) + 1, t.len() as int)
}

/// What bracket notation says of a node: its links, its name and the value
/// by which it is told apart.
pub struct Plan {
    pub parent: Option<usize>,
    pub children: Seq<usize>,
    pub name: Seq<char>,
    pub val: Seq<char>,
}

/// A tree as it grows from a text: its nodes, the lengths of branches read
/// so far, each with the index of the node below the branch, and the number
/// of nodes added so far.
pub struct Grown {
    pub plans: Seq<Plan>,
    pub lengths: Seq<(usize, Seq<char>)>,
    pub num: nat,
}

/// The tree `g` with a new node, labelled by the number of nodes added, as
/// the last child of node `parent`.
pub open spec fn with_child(g: Grown, parent: int) -> Grown {
    let child = g.plans.len() as usize;
    Grown {
        plans: g.plans.update(
            parent,
            (Plan { children: g.plans[parent].children.push(child), ..g.plans[parent] }),
        ).push(
            (Plan {
                parent: Some(parent as usize),
                children: Seq::empty(),
                name: "Undefined"@,
                val: label_of(g.num + 1),
            }),
        ),
        num: g.num + 1,
        ..g
    }
}

/// The tree `g` once the text `t` has been read for node `i`: a text with a
/// colon gives the node the name before the colon and the branch above it
/// the length after it; a text without colon is the name of a leaf, and
/// gives nothing to another node.
pub open spec fn with_text(g: Grown, i: int, t: Seq<char>, leaf: bool) -> Grown {
    if !lacks(t, ':') {
        Grown {
            plans: g.plans.update(i, (Plan { name: name_part(t), ..g.plans[i] })),
            lengths: g.lengths.push((i as usize, length_part(t))),
            ..g
        }
    } else if leaf {
        Grown { plans: g.plans.update(i, (Plan { name: t, ..g.plans[i] })), ..g }
    } else {
        g
    }
}

/// The tree `g` once the subtree that the text `t` stands for has grown
/// below node `index`: a new child of `index`, which is a leaf named by `t`
/// where `t` holds no comma, and otherwise the root of the tree that `t`
/// stands for.
pub open spec fn grow_side(g: Grown, t: Seq<char>, index: int) -> Grown
    decreases t.len(), 1nat,
    when side_ok(t)
{
    let child = g.plans.len() as int;
    let added = with_child(g, index);
    if lacks(t, ',') {
        with_text(added, child, t, true)
    } else {
        grow(added, t, child)
    }
}

/// The tree `g` once the tree that the text `s` stands for has grown below
/// node `index`: the node takes what trails the text, then its left subtree
/// grows, then its right subtree.
pub open spec fn grow(g: Grown, s: Seq<char>, index: int) -> Grown
    decreases s.len(), 0nat,
    when bracketed(s)
{
    proof {
        lemma_parts_shorter(s);
    }
    grow_side(
        grow_side(with_text(g, index, trail_part(s), false), left_part(s), index),
        right_part(s),
        index,
    )
}

/// What bracket notation says of each node of a sequence of nodes.
pub open spec fn plans_of(t: Seq<Noeud<String>>) -> Seq<Plan> {
    Seq::new(
        t.len(),
        |i: int|
            Plan {
                parent: t[i].parent,
                children: t[i].children@,
                name: t[i].name@,
                val: t[i].val@,
            },
    )
}

/// The lengths of branches, as texts, each with the index of the node below
/// the branch.
pub open spec fn lengths_of(l: Seq<(usize, String)>) -> Seq<(usize, Seq<char>)> {
    Seq::new(l.len(), |i: int| (l[i].0, l[i].1@))
}

/// The nodes `b` are the nodes `a`, which have kept everything but their
/// children and their names, and after them nodes that are blank.
pub open spec fn kept(a: Seq<Noeud<String>>, b: Seq<Noeud<String>>) -> bool {
    &&& a.len() <= b.len()
    &&& forall|i: int| 0 <= i < a.len() ==> (#[trigger] b[i]).same_but_plan(a[i])
    &&& forall|i: int| a.len() <= i < b.len() ==> (#[trigger] b[i]).is_blank(i)
}

/// No node of the tree holds the label of a node later than the `num`-th.
pub open spec fn fresh_after(t: &ArenaTree<String>, num: nat) -> bool {
    forall|i: int, k: nat| 0 <= i < t@.len() && k > num ==> (#[trigger] t@[i]).val@ != #[trigger] label_of(k)
}

/// The three parts that a text is split into are its left part, its right
/// part and what trails them.
pub proof fn lemma_split_is(s: Seq<char>, l: Seq<char>, r: Seq<char>, t: Seq<char>)
    requires
        splittable(s),
        exists|c: int| #[trigger]
            first_top_comma(s, c) && l == s.subrange(1, c) && closes(
                s.subrange(c + 1, body_end(s)),
                r,
                t,
            ),
    ensures
        l == left_part(s),
        r == right_part(s),
        t == trail_part(s),
{
    lemma_parts_shorter(s);
    let c = choose|c: int| #[trigger]
        first_top_comma(s, c) && l == s.subrange(1, c) && closes(
            s.subrange(c + 1, body_end(s)),
            r,
            t,
        );
    let d = comma_of(s);
    assert(c == d) by {
        if d < c {
            assert(!top_comma(s, d));
        }
        if c < d {
            assert(!top_comma(s, c));
        }
    }
    let rest = rest_part(s);
    if closed(rest) {
        let k = close_of(rest);
        assert(last_close(rest, k));
        let m = choose|m: int| #[trigger]
            last_close(rest, m) && r == rest.subrange(0, m) && t == rest.subrange(
                m + 1,
                rest.len() as int,
            );
        assert(m == k);
    } else {
        assert forall|k: int| !last_close(rest, k) by {}
    }
}

fn read_text(
    tree: &mut ArenaTree<String>,
    lengths: &mut Vec<(usize, String)>,
    i: usize,
    text: &str,
    leaf: bool,
    Ghost(num): Ghost<nat>,
)
    requires
        old(tree).wf(),
        i < old(tree)@.len(),
    ensures
        final(tree).wf(),
        final(tree)@.len() == old(tree)@.len(),
        kept(old(tree)@, final(tree)@),
        forall|j: int| 0 <= j < old(tree)@.len() ==> (#[trigger] final(tree)@[j]).val == old(tree)@[j].val,
        (Grown {
            plans: plans_of(final(tree)@),
            lengths: lengths_of(final(lengths)@),
            num: num,
        }) == with_text(
            (Grown {
                plans: plans_of(old(tree)@),
                lengths: lengths_of(old(lengths)@),
                num: num,
            }),
            i as int,
            text@,
            leaf,
        ),
{
    let ghost t0 = *tree;
    let ghost l0 = lengths@;
    match find_char(text, ':') {
        Some(j) => {
            let n = text.unicode_len();
            let name = text.substring_char(0, j).to_owned();
            let length = text.substring_char(j + 1, n).to_owned();
            proof {
                assert(!lacks(text@, ':'));
                let k = choose|k: int| found(text@, ':', k);
                assert(k == j) by {
                    if k < j {
                    }
                    if j < k {
                    }
                }
            }
            tree.arena[i].name = name;
            lengths.push((i, length));
            proof {
                assert(tree.links() =~= t0.links());
                assert(plans_of(tree@) =~= plans_of(t0@).update(
                    i as int,
                    (Plan { name: name_part(text@), ..plans_of(t0@)[i as int] }),
                ));
                assert(lengths_of(lengths@) =~= lengths_of(l0).push((i, length_part(text@))));
            }
        },
        None => {
            if leaf {
                tree.arena[i].name = text.to_owned();
                proof {
                    assert(tree.links() =~= t0.links());
                    assert(plans_of(tree@) =~= plans_of(t0@).update(
                        i as int,
                        (Plan { name: text@, ..plans_of(t0@)[i as int] }),
                    ));
                }
            }
        },
    }
}

fn grow_a_side(
    side: String,
    tree: &mut ArenaTree<String>,
    index: usize,
    num: &mut usize,
    lengths: &mut Vec<(usize, String)>,
)
    requires
        old(tree).wf(),
        index < old(tree)@.len(),
        side_ok(side@),
        fresh_after(old(tree), *old(num) as nat),
        old(tree)@.len() + side@.len() + 1 < usize::MAX,
        *old(num) + side@.len() + 1 < usize::MAX,
    ensures
        final(tree).wf(),
        kept(old(tree)@, final(tree)@),
        fresh_after(final(tree), *final(num) as nat),
        final(tree)@.len() <= old(tree)@.len() + side@.len() + 1,
        *old(num) <= *final(num) <= *old(num) + side@.len() + 1,
        (Grown {
            plans: plans_of(final(tree)@),
            lengths: lengths_of(final(lengths)@),
            num: *final(num) as nat,
        }) == grow_side(
            (Grown {
                plans: plans_of(old(tree)@),
                lengths: lengths_of(old(lengths)@),
                num: *old(num) as nat,
            }),
            side@,
            index as int,
        ),
    decreases side@.len(), 1nat,
{
    let ghost t0 = *tree;
    let ghost g0 = Grown {
        plans: plans_of(tree@),
        lengths: lengths_of(lengths@),
        num: *num as nat,
    };
    *num = *num + 1;
    let label = node_label(*num);
    proof {
        assert forall|j: int| 0 <= j < tree@.len() implies (#[trigger] tree@[j]).val@
            != label@ by {
            assert(tree@[j].val@ != label_of(*num as nat));
        }
    }
    let child = tree.add_child(index, label);
    let ghost t1 = *tree;
    proof {
        assert(plans_of(t1@) =~= with_child(g0, index as int).plans);
        assert(kept(t0@, t1@));
        assert forall|i: int, k: nat| 0 <= i < t1@.len() && k > *num as nat implies (
        #[trigger] t1@[i]).val@ != #[trigger] label_of(k) by {
            if i < t0@.len() {
                assert(t1@[i].val == t0@[i].val);
                assert(t0@[i].val@ != label_of(k));
            } else {
                lemma_labels_differ(*num as nat, k);
            }
        }
    }
    match find_char(side.as_str(), ',') {
        None => {
            read_text(tree, lengths, child, side.as_str(), true, Ghost(*num as nat));
            proof {
                assert(kept(t0@, tree@)) by {
                    assert forall|i: int| 0 <= i < t0@.len() implies (
                    #[trigger] tree@[i]).same_but_plan(t0@[i]) by {
                        assert(t1@[i].same_but_plan(t0@[i]));
                        assert(tree@[i].same_but_plan(t1@[i]));
                    }
                    assert forall|i: int| t0@.len() <= i < tree@.len() implies (
                    #[trigger] tree@[i]).is_blank(i) by {
                        assert(tree@[i].same_but_plan(t1@[i]));
                    }
                }
                assert forall|i: int, k: nat| 0 <= i < tree@.len() && k > *num as nat implies (
                #[trigger] tree@[i]).val@ != #[trigger] label_of(k) by {
                    assert(tree@[i].val == t1@[i].val);
                    assert(t1@[i].val@ != label_of(k));
                }
            }
        },
        Some(_c) => {
            proof {
                assert(!lacks(side@, ','));
            }
            newick2tree(side, tree, child, num, lengths);
            proof {
                assert(kept(t0@, tree@)) by {
                    assert forall|i: int| 0 <= i < t0@.len() implies (
                    #[trigger] tree@[i]).same_but_plan(t0@[i]) by {
                        assert(t1@[i].same_but_plan(t0@[i]));
                        assert(tree@[i].same_but_plan(t1@[i]));
                    }
                    assert forall|i: int| t0@.len() <= i < tree@.len() implies (
                    #[trigger] tree@[i]).is_blank(i) by {
                        if i < t1@.len() {
                            assert(tree@[i].same_but_plan(t1@[i]));
                        }
                    }
                }
            }
        },
    }
}

/// Grows below the node `index` the tree that the text `arbre` stands for.
/// The node takes the name that trails the text, where a length follows it;
/// its left subtree and its right subtree become its last two children, each
/// a leaf named by its text or, in turn, the root of the tree that its text
/// stands for. Each node that is added holds the label of its number, which
/// `num` counts. The lengths of branches are not read as numbers: they are
/// added to `lengths` as texts, each with the index of the node below the
/// branch.
pub fn newick2tree(
    arbre: String,
    tree: &mut ArenaTree<String>,
    index: usize,
    num: &mut usize,
    lengths: &mut Vec<(usize, String)>,
)
    requires
        old(tree).wf(),
        index < old(tree)@.len(),
        bracketed(arbre@),
        fresh_after(old(tree), *old(num) as nat),
        old(tree)@.len() + arbre@.len() < usize::MAX,
        *old(num) + arbre@.len() < usize::MAX,
    ensures
        final(tree).wf(),
        kept(old(tree)@, final(tree)@),
        fresh_after(final(tree), *final(num) as nat),
        final(tree)@.len() <= old(tree)@.len() + arbre@.len(),
        *old(num) <= *final(num) <= *old(num) + arbre@.len(),
        (Grown {
            plans: plans_of(final(tree)@),
            lengths: lengths_of(final(lengths)@),
            num: *final(num) as nat,
        }) == grow(
            (Grown {
                plans: plans_of(old(tree)@),
                lengths: lengths_of(old(lengths)@),
                num: *old(num) as nat,
            }),
            arbre@,
            index as int,
        ),
    decreases arbre@.len(), 0nat,
{
    let ghost s = arbre@;
    let ghost t0 = *tree;
    proof {
        lemma_parts_shorter(s);
    }
    let (left, right, trail) = find_left_right(arbre);
    proof {
        lemma_split_is(s, left@, right@, trail@);
    }
    read_text(tree, lengths, index, trail.as_str(), false, Ghost(*num as nat));
    let ghost t1 = *tree;
    proof {
        assert forall|i: int, k: nat| 0 <= i < t1@.len() && k > *num as nat implies (
        #[trigger] t1@[i]).val@ != #[trigger] label_of(k) by {
            assert(t1@[i].val == t0@[i].val);
            assert(t0@[i].val@ != label_of(k));
        }
    }
    grow_a_side(left, tree, index, num, lengths);
    let ghost t2 = *tree;
    grow_a_side(right, tree, index, num, lengths);
    proof {
        assert(kept(t0@, tree@)) by {
            assert forall|i: int| 0 <= i < t0@.len() implies (#[trigger] tree@[i]).same_but_plan(
                t0@[i],
            ) by {
                assert(t1@[i].same_but_plan(t0@[i]));
                assert(t2@[i].same_but_plan(t1@[i]));
                assert(tree@[i].same_but_plan(t2@[i]));
            }
            assert forall|i: int| t0@.len() <= i < tree@.len() implies (
            #[trigger] tree@[i]).is_blank(i) by {
                if i < t2@.len() {
                    assert(tree@[i].same_but_plan(t2@[i]));
                }
            }
        }
    }
}

/// Whether the text is a tree in bracket notation.
pub fn is_bracketed(arbre: &String) -> (r: bool)
    ensures
        r == bracketed(arbre@),
    decreases arbre@.len(),
{
    if !is_splittable(arbre) {
        return false;
    }
    proof {
        lemma_parts_shorter(arbre@);
    }
    let (left, right, trail) = find_left_right(arbre.clone());
    proof {
        lemma_split_is(arbre@, left@, right@, trail@);
    }
    let left_ok = match find_char(left.as_str(), ',') {
        None => true,
        Some(_c) => {
            assert(!lacks(left@, ','));
            is_bracketed(&left)
        },
    };
    if !left_ok {
        return false;
    }
    match find_char(right.as_str(), ',') {
        None => true,
        Some(_c) => {
            assert(!lacks(right@, ','));
            is_bracketed(&right)
        },
    }
}

/// No node of the tree holds a value that begins as the labels do.
pub open spec fn unlabelled(t: &ArenaTree<String>) -> bool {
    forall|i: int|
        0 <= i < t@.len() ==> !((#[trigger] t@[i]).val@.len() >= 5 && t@[i].val@.subrange(0, 5)
            == seq!['N', 'O', 'D', 'E', '_'])
}

/// A tree without labels holds the label of no node.
pub proof fn lemma_unlabelled(t: &ArenaTree<String>, num: nat)
    requires
        unlabelled(t),
    ensures
        fresh_after(t, num),
{
    assert forall|i: int, k: nat| 0 <= i < t@.len() && k > num implies (#[trigger] t@[i]).val@
        != #[trigger] label_of(k) by {
        assert(label_of(k).subrange(0, 5) =~= seq!['N', 'O', 'D', 'E', '_']);
    }
}

/// Whether no node of the tree holds a value that begins as the labels do.
pub fn is_unlabelled(tree: &ArenaTree<String>) -> (r: bool)
    ensures
        r == unlabelled(tree),
{
    let mut i: usize = 0;
    while i < tree.arena.len()
        invariant
            i <= tree@.len(),
            forall|j: int|
                0 <= j < i ==> !((#[trigger] tree@[j]).val@.len() >= 5 && tree@[j].val@.subrange(
                    0,
                    5,
                ) == seq!['N', 'O', 'D', 'E', '_']),
        decreases tree@.len() - i,
    {
        let val = tree.arena[i].val.as_str();
        if val.unicode_len() >= 5 {
            let head = val.substring_char(0, 5);
            proof {
                reveal_strlit("NODE_");
            }
            if head.get_char(0) == 'N' && head.get_char(1) == 'O' && head.get_char(2) == 'D'
                && head.get_char(3) == 'E' && head.get_char(4) == '_' {
                assert(head@ =~= seq!['N', 'O', 'D', 'E', '_']);
                return false;
            }
            assert(head@ != seq!['N', 'O', 'D', 'E', '_']);
        }
        i += 1;
    }
    true
}

} // verus!
