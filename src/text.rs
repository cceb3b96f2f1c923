//! Numbers, octets and names as text.
use vstd::prelude::*;
use vstd::string::*;

verus! {

/// The digit for `d`, up to 15 (`F`).
pub open spec fn digit_text(d: nat) -> Seq<char> {
    if d == 0 {
        "0"@
    } else if d == 1 {
        "1"@
    } else if d == 2 {
        "2"@
    } else if d == 3 {
        "3"@
    } else if d == 4 {
        "4"@
    } else if d == 5 {
        "5"@
    } else if d == 6 {
        "6"@
    } else if d == 7 {
        "7"@
    } else if d == 8 {
        "8"@
    } else if d == 9 {
        "9"@
    } else if d == 10 {
        "A"@
    } else if d == 11 {
        "B"@
    } else if d == 12 {
        "C"@
    } else if d == 13 {
        "D"@
    } else if d == 14 {
        "E"@
    } else {
        "F"@
    }
}

/// `n` in decimal.
pub open spec fn decimal(n: nat) -> Seq<char>
    decreases n,
{
    if n < 10 {
        digit_text(n)
    } else {
        decimal(n / 10) + digit_text(n % 10)
    }
}

/// An octet as two upper-case hexadecimal digits.
pub open spec fn hex_byte(b: u8) -> Seq<char> {
    digit_text((b / 16) as nat) + digit_text((b % 16) as nat)
}

/// Octets in hexadecimal, separated by spaces.
pub open spec fn hex_list(bs: Seq<u8>) -> Seq<char>
    decreases bs.len(),
{
    if bs.len() == 0 {
        seq![]
    } else if bs.len() == 1 {
        hex_byte(bs[0])
    } else {
        hex_list(bs.drop_last()) + " "@ + hex_byte(bs.last())
    }
}

/// Octets in decimal, separated by commas, within brackets.
pub open spec fn debug_list(bs: Seq<u8>) -> Seq<char> {
    "["@ + decimal_items(bs) + "]"@
}

pub open spec fn decimal_items(bs: Seq<u8>) -> Seq<char>
    decreases bs.len(),
{
    if bs.len() == 0 {
        seq![]
    } else if bs.len() == 1 {
        decimal(bs[0] as nat)
    } else {
        decimal_items(bs.drop_last()) + ", "@ + decimal(bs.last() as nat)
    }
}

/// The labels of a name joined by dots.
pub open spec fn dotted(ls: Seq<Seq<char>>) -> Seq<char>
    decreases ls.len(),
{
    if ls.len() == 0 {
        seq![]
    } else if ls.len() == 1 {
        ls[0]
    } else {
        dotted(ls.drop_last()) + "."@ + ls.last()
    }
}

/// An IPv4 address in dotted-decimal form.
pub open spec fn ipv4_text(bs: Seq<u8>) -> Seq<char> {
    decimal(bs[0] as nat) + "."@ + decimal(bs[1] as nat) + "."@ + decimal(bs[2] as nat) + "."@
        + decimal(bs[3] as nat)
}

fn digit(d: u8) -> (r: &'static str)
    requires
        d < 16,
    ensures
        r@ == digit_text(d as nat),
{
    match d {
        0 => "0",
        1 => "1",
        2 => "2",
        3 => "3",
        4 => "4",
        5 => "5",
        6 => "6",
        7 => "7",
        8 => "8",
        9 => "9",
        10 => "A",
        11 => "B",
        12 => "C",
        13 => "D",
        14 => "E",
        _ => "F",
    }
}

pub(crate) fn push_decimal(s: &mut String, n: u32)
    ensures
        final(s)@ == old(s)@ + decimal(n as nat),
    decreases n,
{
    if n >= 10 {
        push_decimal(s, n / 10);
    }
    s.append(digit((n % 10) as u8));
    proof {
        if n >= 10 {
            assert(final(s)@ =~= old(s)@ + decimal(n as nat));
        }
    }
}

/// `n` in decimal.
pub fn to_decimal(n: u32) -> (r: String)
    ensures
        r@ == decimal(n as nat),
{
    let mut s = String::new();
    push_decimal(&mut s, n);
    assert(s@ =~= decimal(n as nat));
    s
}

fn push_hex_byte(s: &mut String, b: u8)
    ensures
        final(s)@ == old(s)@ + hex_byte(b),
{
    s.append(digit(b / 16));
    s.append(digit(b % 16));
    assert(final(s)@ =~= old(s)@ + hex_byte(b));
}

/// Octets in hexadecimal, separated by spaces.
pub fn to_hex_list(bs: &[u8]) -> (r: String)
    ensures
        r@ == hex_list(bs@),
{
    let mut s = String::new();
    let mut i: usize = 0;
    while i < bs.len()
        invariant
            i <= bs@.len(),
            s@ == hex_list(bs@.subrange(0, i as int)),
        decreases bs@.len() - i,
    {
        let ghost pre = bs@.subrange(0, i + 1);
        proof {
            assert(pre.drop_last() =~= bs@.subrange(0, i as int));
        }
        if i > 0 {
            s.append(" ");
        }
        push_hex_byte(&mut s, bs[i]);
        proof {
            if i == 0 {
                assert(s@ =~= hex_list(pre));
            } else {
                assert(s@ =~= hex_list(pre));
            }
        }
        i = i + 1;
    }
    assert(bs@.subrange(0, i as int) =~= bs@);
    s
}

/// Octets in decimal, separated by commas, within brackets.
pub fn to_debug_list(bs: &[u8]) -> (r: String)
    ensures
        r@ == debug_list(bs@),
{
    let mut s = String::new();
    let mut i: usize = 0;
    while i < bs.len()
        invariant
            i <= bs@.len(),
            s@ == decimal_items(bs@.subrange(0, i as int)),
        decreases bs@.len() - i,
    {
        let ghost pre = bs@.subrange(0, i + 1);
        proof {
            assert(pre.drop_last() =~= bs@.subrange(0, i as int));
        }
        if i > 0 {
            s.append(", ");
        }
        push_decimal(&mut s, bs[i] as u32);
        proof {
            assert(s@ =~= decimal_items(pre));
        }
        i = i + 1;
    }
    assert(bs@.subrange(0, i as int) =~= bs@);
    let mut r = String::new();
    r.append("[");
    r.append(s.as_str());
    r.append("]");
    r
}

/// The labels of a name joined by dots.
pub fn to_dotted(labels: &Vec<String>) -> (r: String)
    ensures
        r@ == dotted(labels.deep_view()),
{
    let ghost ls = labels.deep_view();
    let mut s = String::new();
    let mut i: usize = 0;
    while i < labels.len()
        invariant
            i <= labels@.len(),
            ls == labels.deep_view(),
            s@ == dotted(ls.subrange(0, i as int)),
        decreases labels@.len() - i,
    {
        let ghost pre = ls.subrange(0, i + 1);
        proof {
            assert(pre.drop_last() =~= ls.subrange(0, i as int));
            assert(pre.last() == labels@[i as int]@);
        }
        if i > 0 {
            s.append(".");
        }
        s.append(labels[i].as_str());
        proof {
            assert(s@ =~= dotted(pre));
        }
        i = i + 1;
    }
    assert(ls.subrange(0, i as int) =~= ls);
    s
}

/// The first four octets as an IPv4 address in dotted-decimal form.
pub fn ipv4(bs: &[u8]) -> (r: String)
    requires
        bs@.len() >= 4,
    ensures
        r@ == ipv4_text(bs@),
{
    let mut s = String::new();
    push_decimal(&mut s, bs[0] as u32);
    s.append(".");
    push_decimal(&mut s, bs[1] as u32);
    s.append(".");
    push_decimal(&mut s, bs[2] as u32);
    s.append(".");
    push_decimal(&mut s, bs[3] as u32);
    assert(s@ =~= ipv4_text(bs@));
    s
}

pub(crate) fn literal(t: &str) -> (r: String)
    ensures
        r@ == t@,
{
    t.to_owned()
}

} // verus!
