//! The click sequence as the text of an array of `[column,row]` pairs, the form in which
//! it is handed to the script that replays it.
use vstd::prelude::*;
use vstd::string::*;

use crate::board::Tile;

verus! {

/// The decimal digit `d`.
pub open spec fn digit_char(d: nat) -> char {
    seq!['0', '1', '2', '3', '4', '5', '6', '7', '8', '9'][d as int]
}

/// `n` in decimal, without leading zeros.
pub open spec fn decimal(n: nat) -> Seq<char>
    decreases n,
{
    if n < 10 {
        seq![digit_char(n)]
    } else {
        decimal(n / 10).push(digit_char(n % 10))
    }
}

/// `[x,y]` for the tile `(x, y)`.
pub open spec fn tile_text(t: Tile) -> Seq<char> {
    "["@ + decimal(t.0 as nat) + ","@ + decimal(t.1 as nat) + "]"@
}

/// The tiles' texts separated by `", "`.
pub open spec fn tiles_text(s: Seq<Tile>) -> Seq<char>
    decreases s.len(),
{
    if s.len() == 0 {
        Seq::empty()
    } else if s.len() == 1 {
        tile_text(s[0])
    } else {
        tiles_text(s.drop_last()) + ", "@ + tile_text(s.last())
    }
}

fn push_digit(s: &mut String, d: usize)
    requires
        d < 10,
    ensures
        final(s)@ == old(s)@.push(digit_char(d as nat)),
{
    let text = match d {
        0 => "0",
        1 => "1",
        2 => "2",
        3 => "3",
        4 => "4",
        5 => "5",
        6 => "6",
        7 => "7",
        8 => "8",
        _ => "9",
    };
    proof {
        reveal_strlit("0");
        reveal_strlit("1");
        reveal_strlit("2");
        reveal_strlit("3");
        reveal_strlit("4");
        reveal_strlit("5");
        reveal_strlit("6");
        reveal_strlit("7");
        reveal_strlit("8");
        reveal_strlit("9");
    }
    s.append(text);
    assert(s@ =~= old(s)@.push(digit_char(d as nat)));
}

fn push_decimal(s: &mut String, n: usize)
    ensures
        final(s)@ == old(s)@ + decimal(n as nat),
    decreases n,
{
    if n >= 10 {
        push_decimal(s, n / 10);
    }
    push_digit(s, n % 10);
    assert(s@ =~= old(s)@ + decimal(n as nat));
}

/// The steps as `[[x,y], [x,y], ...]`.
pub fn create_array_string(steps: Vec<Tile>) -> (r: String)
    ensures
        r@ == "["@ + tiles_text(steps@) + "]"@,
{
    proof {
        reveal_strlit("[");
        reveal_strlit("]");
        reveal_strlit(",");
        reveal_strlit(", ");
    }
    let mut result = String::from_str("[");
    let mut i: usize = 0;
    while i < steps.len()
        invariant
            0 <= i <= steps@.len(),
            result@ == "["@ + tiles_text(steps@.take(i as int)),
        decreases steps@.len() - i,
    {
        let ghost before = result@;
        if i > 0 {
            result.append(", ");
        }
        result.append("[");
        push_decimal(&mut result, steps[i].0);
        result.append(",");
        push_decimal(&mut result, steps[i].1);
        result.append("]");
        proof {
            let p = steps@.take(i + 1);
            assert(p.drop_last() =~= steps@.take(i as int));
            assert(p.last() == steps@[i as int]);
            if i == 0 {
                assert(result@ =~= "["@ + tiles_text(p));
            } else {
                assert(result@ =~= "["@ + tiles_text(p));
            }
        }
        i += 1;
    }
    result.append("]");
    assert(steps@.take(steps@.len() as int) =~= steps@);
    result
}

} // verus!
