//! Decimal numerals and the textual rendering of queen lists.

use vstd::prelude::*;
use vstd::string::StringExecFns;

use crate::point::Point;

verus! {

/// The character of a single decimal digit.
pub open spec fn digit_char(d: int) -> char {
    if d == 0 {
        '0'
    } else if d == 1 {
        '1'
    } else if d == 2 {
        '2'
    } else if d == 3 {
        '3'
    } else if d == 4 {
        '4'
    } else if d == 5 {
        '5'
    } else if d == 6 {
        '6'
    } else if d == 7 {
        '7'
    } else if d == 8 {
        '8'
    } else {
        '9'
    }
}

/// The decimal numeral of `n`, most significant digit first.
pub open spec fn dec_str(n: int) -> Seq<char>
    decreases n,
{
    if n < 10 {
        seq![digit_char(n)]
    } else {
        dec_str(n / 10).push(digit_char(n % 10))
    }
}

/// The text of a point, one-based: `(RxC)`.
pub open spec fn point_str(p: Point) -> Seq<char> {
    seq!['('] + dec_str(p.row + 1) + seq!['x'] + dec_str(p.col + 1) + seq![')']
}

/// The text of the first `i` queens of `qs`, joined by `", "`.
pub open spec fn points_prefix_str(qs: Seq<Point>, i: int) -> Seq<char>
    decreases i,
{
    if i <= 0 {
        Seq::empty()
    } else {
        points_prefix_str(qs, i - 1) + point_str(qs[i - 1]) + (if i - 1 != qs.len() - 1 {
            seq![',', ' ']
        } else {
            Seq::<char>::empty()
        })
    }
}

/// The full rendering of a queen list: the points, bracketed.
pub open spec fn queens_str(qs: Seq<Point>) -> Seq<char> {
    seq!['['] + points_prefix_str(qs, qs.len() as int) + seq![']']
}

fn digit_str(d: usize) -> (r: &'static str)
    requires
        d < 10,
    ensures
        r@ == seq![digit_char(d as int)],
{
    let s: &'static str = if d == 0 {
        "0"
    } else if d == 1 {
        "1"
    } else if d == 2 {
        "2"
    } else if d == 3 {
        "3"
    } else if d == 4 {
        "4"
    } else if d == 5 {
        "5"
    } else if d == 6 {
        "6"
    } else if d == 7 {
        "7"
    } else if d == 8 {
        "8"
    } else {
        "9"
    };
    proof {
        reveal_strlit("0");
        reveal_strlit("1");
        reveal_strlit("2");
        reveal_strlit("3");
        reveal_strlit("4");
        reveal_strlit("5");
        reveal_strlit("6");
        reveal_strlit("7");
        reveal_strlit("8");
        reveal_strlit("9");
        assert(s@ =~= seq![digit_char(d as int)]);
    }
    s
}

/// The decimal rendering of a number.
pub fn usize_to_string(x: usize) -> (r: String)
    ensures
        r@ == dec_str(x as int),
    decreases x,
{
    if x < 10 {
        let mut s = String::new();
        s.append(digit_str(x));
        proof {
            assert(s@ =~= dec_str(x as int));
        }
        s
    } else {
        let mut s = usize_to_string(x / 10);
        s.append(digit_str(x % 10));
        proof {
            assert(s@ =~= dec_str(x as int));
        }
        s
    }
}

/// The text of a point, one-based: `(RxC)`.
pub fn point_to_string(p: &Point) -> (r: String)
    requires
        p.row < usize::MAX,
        p.col < usize::MAX,
    ensures
        r@ == point_str(*p),
{
    let mut s = String::new();
    s.append("(");
    let row = usize_to_string(p.row + 1);
    s.append(row.as_str());
    s.append("x");
    let col = usize_to_string(p.col + 1);
    s.append(col.as_str());
    s.append(")");
    proof {
        reveal_strlit("(");
        reveal_strlit("x");
        reveal_strlit(")");
        assert(s@ =~= point_str(*p));
    }
    s
}

} // verus!
