//! Text: the labels of nodes that a tree in bracket notation does not name,
//! and the search for a character.

use vstd::prelude::*;
use vstd::string::StrSliceExecFns;
use vstd::string::StringExecFns;

verus! {

/// The character of the decimal digit `d`.
pub open spec fn digit(d: int) -> char {
    if d == 0 {
        '0'
    } else if d == 1 {
        '1'
    } else if d == 2 {
        '2'
    } else if d == 3 {
        '3'
    } else if d == 4 {
        '4'
    } else if d == 5 {
        '5'
    } else if d == 6 {
        '6'
    } else if d == 7 {
        '7'
    } else if d == 8 {
        '8'
    } else {
        '9'
    }
}

/// The decimal notation of `n`.
pub open spec fn digits(n: nat) -> Seq<char>
    decreases n,
{
    if n < 10 {
        seq![digit(n as int)]
    } else {
        digits(n / 10).push(digit((n % 10) as int))
    }
}

/// The label of the `n`-th node that is added: `NODE_` and the decimal
/// notation of `n`.
pub open spec fn label_of(n: nat) -> Seq<char> {
    seq!['N', 'O', 'D', 'E', '_'] + digits(n)
}

/// The digit that the character `c` stands for, and 0 for any other.
pub open spec fn digit_value(c: char) -> nat {
    if c == '1' {
        1
    } else if c == '2' {
        2
    } else if c == '3' {
        3
    } else if c == '4' {
        4
    } else if c == '5' {
        5
    } else if c == '6' {
        6
    } else if c == '7' {
        7
    } else if c == '8' {
        8
    } else if c == '9' {
        9
    } else {
        0
    }
}

/// The number that the decimal notation `s` stands for.
pub open spec fn value_of(s: Seq<char>) -> nat
    decreases s.len(),
{
    if s.len() == 0 {
        0
    } else {
        10 * value_of(s.drop_last()) + digit_value(s.last())
    }
}

/// The decimal notation of a number stands for that number.
pub proof fn lemma_value_of_digits(n: nat)
    ensures
        value_of(digits(n)) == n,
        digits(n).len() >= 1,
    decreases n,
{
    if n < 10 {
        assert(digits(n).drop_last() =~= Seq::<char>::empty());
        assert(value_of(digits(n).drop_last()) == 0);
    } else {
        lemma_value_of_digits(n / 10);
        assert(digits(n).drop_last() =~= digits(n / 10));
    }
}

/// Two numbers have two labels.
pub proof fn lemma_labels_differ(a: nat, b: nat)
    requires
        a != b,
    ensures
        label_of(a) != label_of(b),
{
    lemma_value_of_digits(a);
    lemma_value_of_digits(b);
    if label_of(a) == label_of(b) {
        assert(label_of(a).subrange(5, label_of(a).len() as int) =~= digits(a));
        assert(label_of(b).subrange(5, label_of(b).len() as int) =~= digits(b));
    }
}

fn digit_text(d: usize) -> (s: &'static str)
    requires
        d < 10,
    ensures
        s@ == seq![digit(d as int)],
{
    proof {
        reveal_strlit("0");
        reveal_strlit("1");
        reveal_strlit("2");
        reveal_strlit("3");
        reveal_strlit("4");
        reveal_strlit("5");
        reveal_strlit("6");
        reveal_strlit("7");
        reveal_strlit("8");
        reveal_strlit("9");
    }
    let s = if d == 0 {
        "0"
    } else if d == 1 {
        "1"
    } else if d == 2 {
        "2"
    } else if d == 3 {
        "3"
    } else if d == 4 {
        "4"
    } else if d == 5 {
        "5"
    } else if d == 6 {
        "6"
    } else if d == 7 {
        "7"
    } else if d == 8 {
        "8"
    } else {
        "9"
    };
    assert(s@ =~= seq![digit(d as int)]);
    s
}

/// The text `prefix` followed by the decimal notation of `num`.
pub fn numbered(prefix: &str, num: usize) -> (r: String)
    ensures
        r@ == prefix@ + digits(num as nat),
{
    let text = decimal(num);
    let r = String::from_str(prefix).concat(text.as_str());
    assert(r@ =~= prefix@ + digits(num as nat));
    r
}

/// The label of the `num`-th node that is added.
pub fn node_label(num: usize) -> (r: String)
    ensures
        r@ == label_of(num as nat),
{
    proof {
        reveal_strlit("NODE_");
    }
    let r = numbered("NODE_", num);
    assert(r@ =~= label_of(num as nat));
    r
}

/// The decimal notation of `num`.
pub fn decimal(num: usize) -> (text: String)
    ensures
        text@ == digits(num as nat),
{
    let mut text = String::from_str(digit_text(num % 10));
    let mut rest = num / 10;
    assert(digits(num as nat) =~= if rest > 0 {
        digits(rest as nat) + text@
    } else {
        text@
    });
    while rest > 0
        invariant
            digits(num as nat) == if rest > 0 {
                digits(rest as nat) + text@
            } else {
                text@
            },
        decreases rest,
    {
        let ghost before = text@;
        let ghost old_rest = rest;
        let head = String::from_str(digit_text(rest % 10));
        text = head.concat(text.as_str());
        rest = rest / 10;
        assert(digits(num as nat) =~= if rest > 0 {
            digits(rest as nat) + text@
        } else {
            text@
        }) by {
            assert(text@ =~= seq![digit((old_rest % 10) as int)] + before);
            if old_rest < 10 {
                assert(digits(old_rest as nat) =~= seq![digit(old_rest as int)]);
            } else {
                assert(digits(old_rest as nat) =~= digits(rest as nat).push(
                    digit((old_rest % 10) as int),
                ));
            }
        }
    }
    text
}

/// The place of the first `c` in `s`, if there is one.
pub open spec fn found(s: Seq<char>, c: char, k: int) -> bool {
    0 <= k < s.len() && s[k] == c && forall|j: int| 0 <= j < k ==> s[j] != c
}

/// No character of `s` is `c`.
pub open spec fn lacks(s: Seq<char>, c: char) -> bool {
    forall|j: int| 0 <= j < s.len() ==> s[j] != c
}

/// The place of the first `c` in `s`, counted in characters, if there is
/// one.
pub fn find_char(s: &str, c: char) -> (r: Option<usize>)
    ensures
        match r {
            Some(k) => found(s@, c, k as int),
            None => lacks(s@, c),
        },
{
    let n = s.unicode_len();
    let mut i: usize = 0;
    while i < n
        invariant
            n == s@.len(),
            i <= n,
            forall|j: int| 0 <= j < i ==> s@[j] != c,
        decreases n - i,
    {
        if s.get_char(i) == c {
            return Some(i);
        }
        i += 1;
    }
    None
}

} // verus!
