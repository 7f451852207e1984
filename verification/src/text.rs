use vstd::prelude::*;
use vstd::string::StringExecFns;

verus! {

/// The character of a digit below 16, in lower case.
pub open spec fn digit_of(d: int) -> char {
    if d == 0 {
        '0'
    } else if d == 1 {
        '1'
    } else if d == 2 {
        '2'
    } else if d == 3 {
        '3'
    } else if d == 4 {
        '4'
    } else if d == 5 {
        '5'
    } else if d == 6 {
        '6'
    } else if d == 7 {
        '7'
    } else if d == 8 {
        '8'
    } else if d == 9 {
        '9'
    } else if d == 10 {
        'a'
    } else if d == 11 {
        'b'
    } else if d == 12 {
        'c'
    } else if d == 13 {
        'd'
    } else if d == 14 {
        'e'
    } else {
        'f'
    }
}

/// The decimal digits of `n`, without leading zeros.
pub open spec fn decimal_spec(n: nat) -> Seq<char>
    decreases n,
{
    if n < 10 {
        seq![digit_of(n as int)]
    } else {
        decimal_spec(n / 10).push(digit_of((n % 10) as int))
    }
}

/// The decimal digits of a signed number, a minus sign before a negative one.
pub open spec fn signed_decimal_spec(i: int) -> Seq<char> {
    if i < 0 {
        seq!['-'] + decimal_spec((-i) as nat)
    } else {
        decimal_spec(i as nat)
    }
}

/// The lowest `digits` hexadecimal digits of `v`, the highest first.
pub open spec fn hex_spec(v: nat, digits: nat) -> Seq<char>
    decreases digits,
{
    if digits == 0 {
        Seq::empty()
    } else {
        hex_spec(v / 16, (digits - 1) as nat).push(digit_of((v % 16) as int))
    }
}

/// A 32-bit vector as a literal: `#x` and eight hexadecimal digits.
pub open spec fn bits_spec(v: u32) -> Seq<char> {
    seq!['#', 'x'] + hex_spec(v as nat, 8)
}

/// The name of the symbolic value of the local `id`: `local` and the
/// local's number.
pub open spec fn local_name(id: usize) -> Seq<char> {
    seq!['l', 'o', 'c', 'a', 'l'] + decimal_spec(id as nat)
}

/// The text of one digit.
fn digit(d: u64) -> (r: &'static str)
    requires
        d < 16,
    ensures
        r@ == seq![digit_of(d as int)],
{
    proof {
        reveal_strlit("0");
        reveal_strlit("1");
        reveal_strlit("2");
        reveal_strlit("3");
        reveal_strlit("4");
        reveal_strlit("5");
        reveal_strlit("6");
        reveal_strlit("7");
        reveal_strlit("8");
        reveal_strlit("9");
        reveal_strlit("a");
        reveal_strlit("b");
        reveal_strlit("c");
        reveal_strlit("d");
        reveal_strlit("e");
        reveal_strlit("f");
    }
    let r = if d == 0 {
        "0"
    } else if d == 1 {
        "1"
    } else if d == 2 {
        "2"
    } else if d == 3 {
        "3"
    } else if d == 4 {
        "4"
    } else if d == 5 {
        "5"
    } else if d == 6 {
        "6"
    } else if d == 7 {
        "7"
    } else if d == 8 {
        "8"
    } else if d == 9 {
        "9"
    } else if d == 10 {
        "a"
    } else if d == 11 {
        "b"
    } else if d == 12 {
        "c"
    } else if d == 13 {
        "d"
    } else if d == 14 {
        "e"
    } else {
        "f"
    };
    assert(r@ =~= seq![digit_of(d as int)]);
    r
}

/// Writes a number in decimal.
pub fn decimal(n: u64) -> (r: String)
    ensures
        r@ == decimal_spec(n as nat),
    decreases n,
{
    if n < 10 {
        String::from_str(digit(n))
    } else {
        let mut r = decimal(n / 10);
        r.append(digit(n % 10));
        r
    }
}

/// Writes a signed 32-bit number in decimal.
pub fn signed_decimal(i: i32) -> (r: String)
    ensures
        r@ == signed_decimal_spec(i as int),
{
    if i < 0 {
        proof {
            reveal_strlit("-");
        }
        let digits = decimal((-(i as i64)) as u64);
        let mut r = String::from_str("-");
        r.append(digits.as_str());
        assert(r@ =~= seq!['-'] + digits@);
        r
    } else {
        decimal(i as u64)
    }
}

/// Writes the lowest `digits` hexadecimal digits of `v`.
fn hex(v: u32, digits: u32) -> (r: String)
    ensures
        r@ == hex_spec(v as nat, digits as nat),
    decreases digits,
{
    if digits == 0 {
        String::new()
    } else {
        let mut r = hex(v / 16, digits - 1);
        r.append(digit((v % 16) as u64));
        r
    }
}

/// Writes a 32-bit vector as a literal.
pub fn bits_text(v: u32) -> (r: String)
    ensures
        r@ == bits_spec(v),
{
    proof {
        reveal_strlit("#x");
    }
    let digits = hex(v, 8);
    let mut r = String::from_str("#x");
    r.append(digits.as_str());
    assert(r@ =~= seq!['#', 'x'] + digits@);
    r
}

/// Writes the name of the symbolic value of a local.
pub fn name_of_local(id: usize) -> (r: String)
    ensures
        r@ == local_name(id),
{
    proof {
        reveal_strlit("local");
    }
    let digits = decimal(id as u64);
    let mut r = String::from_str("local");
    r.append(digits.as_str());
    assert(r@ =~= seq!['l', 'o', 'c', 'a', 'l'] + digits@);
    r
}

/// The views of a list of strings.
pub open spec fn texts(parts: Seq<String>) -> Seq<Seq<char>> {
    Seq::new(parts.len(), |i: int| parts[i]@)
}

/// The parts in a row, with `sep` between every two.
pub open spec fn join_spec(parts: Seq<Seq<char>>, sep: Seq<char>) -> Seq<char>
    decreases parts.len(),
{
    if parts.len() == 0 {
        Seq::empty()
    } else if parts.len() == 1 {
        parts[0]
    } else {
        join_spec(parts.drop_last(), sep) + sep + parts.last()
    }
}

/// Joins the parts with `sep` between every two.
pub fn join(parts: &Vec<String>, sep: &str) -> (r: String)
    ensures
        r@ == join_spec(texts(parts@), sep@),
{
    let mut r = String::new();
    let mut i: usize = 0;
    while i < parts.len()
        invariant
            i <= parts.len(),
            r@ == join_spec(texts(parts@).take(i as int), sep@),
        decreases parts.len() - i,
    {
        let ghost done = texts(parts@).take(i as int);
        let ghost next = texts(parts@).take(i + 1);
        proof {
            assert(next.drop_last() =~= done);
            assert(next.last() == parts@[i as int]@);
        }
        if i > 0 {
            r.append(sep);
            r.append(parts[i].as_str());
        } else {
            r.append(parts[i].as_str());
            assert(r@ =~= parts@[0]@);
        }
        i = i + 1;
    }
    assert(texts(parts@).take(parts@.len() as int) =~= texts(parts@));
    r
}

} // verus!