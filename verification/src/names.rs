//! The names of table files: the level and a time stamp.

use vstd::prelude::*;
use vstd::string::*;

verus! {

/// The character of a decimal digit.
pub open spec fn digit(d: nat) -> char {
    if d == 0 {
        '0'
    } else if d == 1 {
        '1'
    } else if d == 2 {
        '2'
    } else if d == 3 {
        '3'
    } else if d == 4 {
        '4'
    } else if d == 5 {
        '5'
    } else if d == 6 {
        '6'
    } else if d == 7 {
        '7'
    } else if d == 8 {
        '8'
    } else {
        '9'
    }
}

/// A number in decimal notation.
pub open spec fn decimal(n: nat) -> Seq<char>
    decreases n,
{
    if n < 10 {
        seq![digit(n)]
    } else {
        decimal(n / 10).push(digit(n % 10))
    }
}

/// The name of a file of the first level, flushed at the given time.
pub open spec fn l0_name(stamp: nat) -> Seq<char> {
    seq!['l', '0', '_'] + decimal(stamp) + seq!['.', 's', 's', 't']
}

/// The name of a file of the second level, merged at the given time.
pub open spec fn l1_name(stamp: nat) -> Seq<char> {
    seq!['l', '1', '_'] + decimal(stamp) + seq!['.', 's', 's', 't']
}

/// Appends a digit.
fn put_digit(out: &mut String, d: u128)
    requires
        d < 10,
    ensures
        final(out)@ == old(out)@.push(digit(d as nat)),
{
    let text = if d == 0 {
        "0"
    } else if d == 1 {
        "1"
    } else if d == 2 {
        "2"
    } else if d == 3 {
        "3"
    } else if d == 4 {
        "4"
    } else if d == 5 {
        "5"
    } else if d == 6 {
        "6"
    } else if d == 7 {
        "7"
    } else if d == 8 {
        "8"
    } else {
        "9"
    };
    proof {
        reveal_strlit("0");
        reveal_strlit("1");
        reveal_strlit("2");
        reveal_strlit("3");
        reveal_strlit("4");
        reveal_strlit("5");
        reveal_strlit("6");
        reveal_strlit("7");
        reveal_strlit("8");
        reveal_strlit("9");
        assert(text@ =~= seq![digit(d as nat)]);
    }
    let ghost before = out@;
    out.append(text);
    assert(out@ =~= before.push(digit(d as nat)));
}

/// Appends a number in decimal notation.
fn put_decimal(out: &mut String, n: u128)
    ensures
        final(out)@ == old(out)@ + decimal(n as nat),
    decreases n,
{
    let ghost before = out@;
    if n >= 10 {
        put_decimal(out, n / 10);
    }
    put_digit(out, n % 10);
    assert(out@ =~= before + decimal(n as nat));
}

/// The name of a file of the first level, flushed at the given time.
pub fn l0_file_name(stamp: u128) -> (name: String)
    ensures
        name@ == l0_name(stamp as nat),
{
    let mut name = String::new();
    name.append("l0_");
    put_decimal(&mut name, stamp);
    name.append(".sst");
    proof {
        reveal_strlit("l0_");
        reveal_strlit(".sst");
        assert(name@ =~= l0_name(stamp as nat));
    }
    name
}

/// The name of a file of the second level, merged at the given time.
pub fn l1_file_name(stamp: u128) -> (name: String)
    ensures
        name@ == l1_name(stamp as nat),
{
    let mut name = String::new();
    name.append("l1_");
    put_decimal(&mut name, stamp);
    name.append(".sst");
    proof {
        reveal_strlit("l1_");
        reveal_strlit(".sst");
        assert(name@ =~= l1_name(stamp as nat));
    }
    name
}

proof fn lemma_decimal_injective(a: nat, b: nat)
    requires
        decimal(a) == decimal(b),
    ensures
        a == b,
    decreases a,
{
    lemma_decimal_nonempty(a / 10);
    lemma_decimal_nonempty(b / 10);
    assert(decimal(a).last() == digit(a % 10));
    assert(decimal(b).last() == digit(b % 10));
    assert(a % 10 == b % 10);
    if a >= 10 && b >= 10 {
        assert(decimal(a).drop_last() =~= decimal(a / 10));
        assert(decimal(b).drop_last() =~= decimal(b / 10));
        lemma_decimal_injective(a / 10, b / 10);
    } else if a >= 10 {
        assert(decimal(a).len() == 1 + decimal(a / 10).len());
    } else if b >= 10 {
        assert(decimal(b).len() == 1 + decimal(b / 10).len());
    }
}

proof fn lemma_decimal_nonempty(n: nat)
    ensures
        decimal(n).len() > 0,
    decreases n,
{
}

/// Files of one level with different stamps have different names, and no two
/// levels share a name.
pub proof fn law_names_are_distinct(a: nat, b: nat)
    ensures
        l0_name(a) == l0_name(b) ==> a == b,
        l1_name(a) == l1_name(b) ==> a == b,
        l0_name(a) != l1_name(b),
{
    let x = decimal(a);
    let y = decimal(b);
    if l0_name(a) == l0_name(b) {
        assert(l0_name(a).subrange(3, l0_name(a).len() - 4) =~= x);
        assert(l0_name(b).subrange(3, l0_name(b).len() - 4) =~= y);
        lemma_decimal_injective(a, b);
    }
    if l1_name(a) == l1_name(b) {
        assert(l1_name(a).subrange(3, l1_name(a).len() - 4) =~= x);
        assert(l1_name(b).subrange(3, l1_name(b).len() - 4) =~= y);
        lemma_decimal_injective(a, b);
    }
    assert(l0_name(a)[1] == '0');
    assert(l1_name(b)[1] == '1');
}

/// The decimal notation of a number ends with its last digit, before which stands the
/// notation of the rest, if there is any. A file's name is the level, an underscore,
/// the stamp in decimal notation, and the ending.
pub proof fn law_names_carry_level_and_stamp(n: nat, d: nat)
    requires
        d < 10,
    ensures
        n == 0 ==> decimal(d).len() == 1 && decimal(d)[0] as int == 48 + d,
        n > 0 ==> decimal(10 * n + d).len() == decimal(n).len() + 1,
        n > 0 ==> decimal(10 * n + d).drop_last() == decimal(n),
        n > 0 ==> decimal(10 * n + d).last() as int == 48 + d,
        l0_name(n) == seq!['l', '0', '_'] + decimal(n) + seq!['.', 's', 's', 't'],
        l1_name(n) == seq!['l', '1', '_'] + decimal(n) + seq!['.', 's', 's', 't'],
{
    if n > 0 {
        let all = 10 * n + d;
        assert(all / 10 == n && all % 10 == d);
        assert(decimal(all) == decimal(n).push(digit(d)));
        assert(decimal(all).drop_last() =~= decimal(n));
    }
}

} // verus!
