//! Bracket notation: the split of a parenthesised tree into its two
//! subtrees.

use vstd::prelude::*;
use vstd::string::StrSliceExecFns;

verus! {

/// How many brackets are open after the first `k` characters of `s`.
pub open spec fn open_brackets(s: Seq<char>, k: int) -> int
    decreases k,
{
    if k <= 0 {
        0
    } else {
        open_brackets(s, k - 1) + if s[k - 1] == '(' {
            1int
        } else if s[k - 1] == ')' {
            -1int
        } else {
            0int
        }
    }
}

/// The character at `c` is a comma inside the outermost bracket and no
/// deeper.
pub open spec fn top_comma(s: Seq<char>, c: int) -> bool {
    0 <= c < s.len() && s[c] == ',' && open_brackets(s, c) == 1
}

/// The first comma inside the outermost bracket is at `c`.
pub open spec fn first_top_comma(s: Seq<char>, c: int) -> bool {
    top_comma(s, c) && forall|j: int| 0 <= j < c ==> !top_comma(s, j)
}

/// Where the text of the tree ends: before its last character, and before
/// the one in front of it where the last is a line feed.
pub open spec fn body_end(s: Seq<char>) -> int {
    if s.len() > 0 && s.last() == '\n' {
        s.len() - 2
    } else {
        s.len() - 1
    }
}

/// The last closing bracket of `t` is at `k`.
pub open spec fn last_close(t: Seq<char>, k: int) -> bool {
    0 <= k < t.len() && t[k] == ')' && forall|j: int| k < j < t.len() ==> t[j] != ')'
}

/// `right` is what precedes the last closing bracket of `rest` and `trail`
/// what follows it; without such a bracket `right` is all of `rest` and
/// `trail` is empty.
pub open spec fn closes(rest: Seq<char>, right: Seq<char>, trail: Seq<char>) -> bool {
    ||| exists|k: int| #[trigger]
        last_close(rest, k) && right == rest.subrange(0, k) && trail == rest.subrange(
            k + 1,
            rest.len() as int,
        )
    ||| (forall|j: int| 0 <= j < rest.len() ==> rest[j] != ')') && right == rest && trail
        == Seq::<char>::empty()
}

/// The text `s` can be split: it opens with a bracket and holds, before its
/// end, a comma inside that bracket and no deeper.
pub open spec fn splittable(s: Seq<char>) -> bool {
    &&& s.len() >= 1
    &&& s[0] == '('
    &&& exists|c: int| #[trigger] first_top_comma(s, c) && c + 1 <= body_end(s)
}

/// Whether the text can be split: it opens with a bracket and holds, before
/// its end, a comma inside that bracket and no deeper.
pub fn is_splittable(arbre: &String) -> (r: bool)
    ensures
        r == splittable(arbre@),
{
    let s = arbre.as_str();
    let n = s.unicode_len();
    if n == 0 {
        return false;
    }
    if s.get_char(0) != '(' {
        return false;
    }
    let last_is_feed = s.get_char(n - 1) == '\n';
    if last_is_feed && n < 2 {
        assert(forall|c: int| !(#[trigger] first_top_comma(s@, c) && c + 1 <= body_end(s@)));
        return false;
    }
    let end: usize = if last_is_feed {
        n - 2
    } else {
        n - 1
    };
    assert(end == body_end(s@));
    let mut num_par: i128 = 0;
    let mut i: usize = 0;
    while i < n
        invariant
            n == s@.len(),
            s@ == arbre@,
            n >= 1,
            s@[0] == '(',
            end == body_end(s@),
            i <= n,
            num_par == open_brackets(s@, i as int),
            -(i as int) <= num_par <= i,
            forall|j: int| 0 <= j < i ==> !top_comma(s@, j),
        decreases n - i,
    {
        let c = s.get_char(i);
        if c == ',' {
            if num_par == 1 {
                assert(first_top_comma(s@, i as int));
                if i + 1 <= end {
                    return true;
                } else {
                    assert forall|c: int| !(#[trigger] first_top_comma(s@, c) && c + 1 <= body_end(
                        s@,
                    )) by {
                        if first_top_comma(s@, c) {
                            if c < i {
                                assert(!top_comma(s@, c));
                            }
                            if i < c {
                                assert(top_comma(s@, i as int));
                            }
                        }
                    }
                    return false;
                }
            }
        } else if c == '(' {
            num_par += 1;
        } else if c == ')' {
            num_par -= 1;
        }
        i += 1;
    }
    assert forall|c: int| !(#[trigger] first_top_comma(s@, c) && c + 1 <= body_end(s@)) by {
        if first_top_comma(s@, c) {
            assert(top_comma(s@, c));
        }
    }
    false
}

/// Splits a parenthesised tree `(left,right)trail;` at the first comma
/// inside its outermost bracket into the left subtree, the right subtree and
/// what trails the closing bracket. The last character is dropped, and a
/// line feed after it.
pub fn find_left_right(arbre: String) -> (r: (String, String, String))
    requires
        splittable(arbre@),
    ensures
        exists|c: int| #[trigger]
            first_top_comma(arbre@, c) && r.0@ == arbre@.subrange(1, c) && closes(
                arbre@.subrange(c + 1, body_end(arbre@)),
                r.1@,
                r.2@,
            ),
{
    let s = arbre.as_str();
    let n = s.unicode_len();
    let mut end = n - 1;
    if s.get_char(end) == '\n' {
        end -= 1;
    }
    assert(end == body_end(s@));
    let mut num_par: i128 = 0;
    let mut i: usize = 0;
    let mut found = false;
    while i < n && !found
        invariant
            n == s@.len(),
            i <= n,
            num_par == open_brackets(s@, if found {
                i - 1
            } else {
                i as int
            }),
            -(i as int) <= num_par <= i,
            found ==> i >= 1 && first_top_comma(s@, i - 1),
            !found ==> forall|j: int| 0 <= j < i ==> !top_comma(s@, j),
        decreases n - i + if found { 0int } else { 1int },
    {
        let c = s.get_char(i);
        if c == ',' {
            if num_par == 1 {
                found = true;
            }
        } else if c == '(' {
            num_par += 1;
        } else if c == ')' {
            num_par -= 1;
        }
        i += 1;
    }
    assert(found);
    let ghost cut = i - 1;
    assert(cut >= 1) by {
        assert(s@[0] == '(');
    }
    assert(i <= end) by {
        let c = choose|c: int| #[trigger] first_top_comma(s@, c) && c + 1 <= body_end(s@);
        assert(c == cut) by {
            if c < cut {
                assert(!top_comma(s@, c));
            }
            if cut < c {
                assert(!top_comma(s@, cut));
            }
        }
    }
    let left = s.substring_char(1, i - 1);
    let rest = s.substring_char(i, end);
    let m = rest.unicode_len();
    let mut k: usize = m;
    let mut at: Option<usize> = None;
    while k > 0 && at.is_none()
        invariant
            m == rest@.len(),
            k <= m,
            match at {
                Some(p) => last_close(rest@, p as int),
                None => forall|j: int| k <= j < m ==> rest@[j] != ')',
            },
        decreases k + if at.is_none() { 1int } else { 0int },
    {
        k -= 1;
        if rest.get_char(k) == ')' {
            at = Some(k);
        }
    }
    let (right_clean, trail) = match at {
        Some(p) => (rest.substring_char(0, p), rest.substring_char(p + 1, m)),
        None => (rest, rest.substring_char(m, m)),
    };
    let r = (left.to_owned(), right_clean.to_owned(), trail.to_owned());
    proof {
        assert(rest@ == arbre@.subrange(cut + 1, body_end(arbre@)));
        assert(r.2@ =~= trail@);
        if at.is_none() {
            assert(trail@ =~= Seq::<char>::empty());
        }
        assert(closes(rest@, r.1@, r.2@));
        assert(first_top_comma(arbre@, cut));
    }
    r
}

} // verus!
