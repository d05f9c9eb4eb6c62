use vstd::prelude::*;
use vstd::arithmetic::div_mod::lemma_div_denominator;
use vstd::string::{StrSliceExecFns, StringExecFns};
use crate::tree::path_view;

verus! {

/// Character-for-character string comparison, stated over the views.
pub fn str_eq(a: &str, b: &str) -> (r: bool)
    ensures
        r == (a@ == b@),
{
    let x: String = a.to_owned();
    let y: String = b.to_owned();
    x == y
}

/// The digit character for one value below ten.
pub open spec fn digit_char(d: int) -> char {
    if d == 0 {
        '0'
    } else if d == 1 {
        '1'
    } else if d == 2 {
        '2'
    } else if d == 3 {
        '3'
    } else if d == 4 {
        '4'
    } else if d == 5 {
        '5'
    } else if d == 6 {
        '6'
    } else if d == 7 {
        '7'
    } else if d == 8 {
        '8'
    } else {
        '9'
    }
}

/// The usual decimal writing of a number, most significant digit first.
pub open spec fn dec_seq(n: nat) -> Seq<char>
    decreases n,
{
    if n < 10 {
        seq![digit_char(n as int)]
    } else {
        dec_seq(n / 10) + seq![digit_char((n % 10) as int)]
    }
}

fn digit_str(d: u64) -> (s: &'static str)
    requires
        d < 10,
    ensures
        s@ == seq![digit_char(d as int)],
{
    proof {
        reveal_strlit("0");
        reveal_strlit("1");
        reveal_strlit("2");
        reveal_strlit("3");
        reveal_strlit("4");
        reveal_strlit("5");
        reveal_strlit("6");
        reveal_strlit("7");
        reveal_strlit("8");
        reveal_strlit("9");
    }
    let s: &'static str = if d == 0 {
        "0"
    } else if d == 1 {
        "1"
    } else if d == 2 {
        "2"
    } else if d == 3 {
        "3"
    } else if d == 4 {
        "4"
    } else if d == 5 {
        "5"
    } else if d == 6 {
        "6"
    } else if d == 7 {
        "7"
    } else if d == 8 {
        "8"
    } else {
        "9"
    };
    proof {
        assert(s@ =~= seq![digit_char(d as int)]);
    }
    s
}

/// Write a number in plain decimal.
pub fn to_decimal(n: u64) -> (s: String)
    ensures
        s@ == dec_seq(n as nat),
    decreases n,
{
    if n < 10 {
        let s = digit_str(n).to_owned();
        s
    } else {
        let mut s = to_decimal(n / 10);
        s.append(digit_str(n % 10));
        proof {
            assert(s@ =~= dec_seq(n as nat));
        }
        s
    }
}

/// One three-digit group, written with leading zeros.
pub open spec fn pad3(m: nat) -> Seq<char> {
    seq![digit_char((m / 100) as int), digit_char(((m / 10) % 10) as int), digit_char(
        (m % 10) as int,
    )]
}

/// A count with thousands groups separated by commas, grouped from the most
/// significant end: the leading group has no leading zeros, every following
/// group has exactly three digits.
pub open spec fn spec_commaize(n: nat) -> Seq<char>
    decreases n,
{
    if n < 1000 {
        dec_seq(n)
    } else {
        spec_commaize(n / 1000) + seq![','] + pad3(n % 1000)
    }
}

/// Format a count with thousands separators.
pub fn commaize(d: u64) -> (s: String)
    ensures
        s@ == spec_commaize(d as nat),
    decreases d,
{
    if d < 1000 {
        to_decimal(d)
    } else {
        let mut s = commaize(d / 1000);
        let m = d % 1000;
        s.append(",");
        s.append(digit_str(m / 100));
        s.append(digit_str((m / 10) % 10));
        s.append(digit_str(m % 10));
        proof {
            reveal_strlit(",");
            assert(s@ =~= spec_commaize(d as nat));
        }
        s
    }
}

/// 1024 raised to the given power.
pub open spec fn pow1024(o: nat) -> nat
    decreases o,
{
    if o == 0 {
        1
    } else {
        1024 * pow1024((o - 1) as nat)
    }
}

proof fn lemma_pow1024_lower(o: nat)
    ensures
        pow1024(o) > o,
    decreases o,
{
    if o > 0 {
        lemma_pow1024_lower((o - 1) as nat);
        assert(1024 * pow1024((o - 1) as nat) > o) by (nonlinear_arith)
            requires
                pow1024((o - 1) as nat) > o - 1,
                o >= 1,
        ;
    }
}

/// How many times a size is divided by 1024 before it drops under 1024.
pub open spec fn order_of(n: nat) -> nat
    decreases n,
{
    if n < 1024 {
        0
    } else {
        1 + order_of(n / 1024)
    }
}

/// The unit letter for each binary magnitude, bytes upward.
pub open spec fn unit_char(o: nat) -> char {
    if o == 0 {
        'B'
    } else if o == 1 {
        'K'
    } else if o == 2 {
        'M'
    } else if o == 3 {
        'G'
    } else if o == 4 {
        'T'
    } else if o == 5 {
        'P'
    } else if o == 6 {
        'E'
    } else if o == 7 {
        'Z'
    } else {
        'Y'
    }
}

/// A size scaled to its binary magnitude, written with two (truncated)
/// decimal places and the magnitude's unit letter.
pub open spec fn spec_humanize(n: nat) -> Seq<char> {
    let o = order_of(n);
    let p = pow1024(o);
    let whole = n / p;
    let frac = (n % p) * 100 / p;
    dec_seq(whole) + seq!['.', digit_char((frac / 10) as int), digit_char((frac % 10) as int), ' ',
        unit_char(o as nat)]
}

fn unit_str(o: u64) -> (s: &'static str)
    ensures
        s@ == seq![unit_char(o as nat)],
{
    proof {
        reveal_strlit("B");
        reveal_strlit("K");
        reveal_strlit("M");
        reveal_strlit("G");
        reveal_strlit("T");
        reveal_strlit("P");
        reveal_strlit("E");
        reveal_strlit("Z");
        reveal_strlit("Y");
    }
    let s: &'static str = if o == 0 {
        "B"
    } else if o == 1 {
        "K"
    } else if o == 2 {
        "M"
    } else if o == 3 {
        "G"
    } else if o == 4 {
        "T"
    } else if o == 5 {
        "P"
    } else if o == 6 {
        "E"
    } else if o == 7 {
        "Z"
    } else {
        "Y"
    };
    proof {
        assert(s@ =~= seq![unit_char(o as nat)]);
    }
    s
}

/// Format a byte size in a human-readable way: scaled by powers of 1024 until
/// it is below 1024, with two decimal places and a unit letter.
pub fn humanize(d: u64) -> (s: String)
    ensures
        s@ == spec_humanize(d as nat),
{
    let mut order: u64 = 0;
    let mut pow: u64 = 1;
    let mut scaled: u64 = d;
    while scaled >= 1024
        invariant
            pow == pow1024(order as nat),
            1 <= pow <= d || d < 1024,
            scaled == d as nat / pow as nat,
            order_of(d as nat) == order + order_of(scaled as nat),
        decreases scaled,
    {
        proof {
            lemma_pow1024_lower(order as nat);
            lemma_div_denominator(d as int, pow as int, 1024);
            assert((pow * 1024) as nat <= d as nat) by (nonlinear_arith)
                requires
                    scaled == d as nat / pow as nat,
                    scaled >= 1024,
                    pow >= 1,
            ;
            assert(d as nat / (pow as nat * 1024) < scaled) by (nonlinear_arith)
                requires
                    scaled == d as nat / pow as nat,
                    scaled >= 1024,
                    pow >= 1,
            ;
        }
        scaled = scaled / 1024;
        pow = pow * 1024;
        order = order + 1;
    }
    let whole = scaled;
    let rem = d % pow;
    let frac128: u128 = (rem as u128) * 100 / (pow as u128);
    proof {
        assert((rem as int) * 100 / (pow as int) < 100) by (nonlinear_arith)
            requires
                rem < pow,
                pow >= 1,
        ;
        assert(frac128 as int == (rem as int) * 100 / (pow as int));
    }
    let frac = frac128 as u64;
    let mut s = to_decimal(whole);
    s.append(".");
    s.append(digit_str(frac / 10));
    s.append(digit_str(frac % 10));
    s.append(" ");
    s.append(unit_str(order));
    proof {
        reveal_strlit(".");
        reveal_strlit(" ");
        assert(s@ =~= spec_humanize(d as nat));
    }
    s
}

/// A run of spaces.
pub open spec fn spaces(n: nat) -> Seq<char>
    decreases n,
{
    if n == 0 {
        Seq::<char>::empty()
    } else {
        spaces((n - 1) as nat) + seq![' ']
    }
}

/// A string padded with spaces on the left up to the given width; a string
/// already that wide is left alone.
pub open spec fn spec_pad_left(s: Seq<char>, w: nat) -> Seq<char> {
    if s.len() >= w {
        s
    } else {
        spaces((w - s.len()) as nat) + s
    }
}

/// Right-align a string within the given width.
pub fn pad_left(s: &str, w: usize) -> (r: String)
    ensures
        r@ == spec_pad_left(s@, w as nat),
{
    let n = s.unicode_len();
    let pad: usize = if w > n {
        w - n
    } else {
        0
    };
    let mut r = String::new();
    let mut k: usize = 0;
    proof {
        reveal_strlit(" ");
    }
    while k < pad
        invariant
            0 <= k <= pad,
            r@ == spaces(k as nat),
        decreases pad - k,
    {
        r.append(" ");
        proof {
            reveal_strlit(" ");
            assert(r@ =~= spaces(k as nat + 1));
        }
        k = k + 1;
    }
    r.append(s);
    proof {
        if n >= w {
            assert(r@ =~= spec_pad_left(s@, w as nat));
        } else {
            assert(r@ =~= spec_pad_left(s@, w as nat));
        }
    }
    r
}

/// A path as one display line: its components joined with `/`.
pub open spec fn spec_display_path(p: Seq<Seq<char>>) -> Seq<char>
    decreases p.len(),
{
    if p.len() == 0 {
        Seq::<char>::empty()
    } else if p.len() == 1 {
        p[0]
    } else {
        spec_display_path(p.drop_last()) + seq!['/'] + p.last()
    }
}

/// Render a path for display, components joined with `/`.
pub fn fix_display_path(path: &Vec<String>) -> (r: String)
    ensures
        r@ == spec_display_path(path_view(*path)),
{
    let ghost pv = path_view(*path);
    let mut r = String::new();
    let mut i: usize = 0;
    proof {
        reveal_strlit("/");
        assert(pv.subrange(0, 0) =~~= Seq::<Seq<char>>::empty());
    }
    while i < path.len()
        invariant
            0 <= i <= path.len(),
            pv == path_view(*path),
            pv.len() == path.len(),
            r@ == spec_display_path(pv.subrange(0, i as int)),
        decreases path.len() - i,
    {
        if i > 0 {
            r.append("/");
        }
        r.append(path[i].as_str());
        proof {
            reveal_strlit("/");
            assert(pv.subrange(0, i as int + 1).drop_last() =~~= pv.subrange(0, i as int));
            assert(pv.subrange(0, i as int + 1).last() == pv[i as int]);
            assert(pv[i as int] == path@[i as int]@);
            if i == 0 {
                assert(r@ =~= spec_display_path(pv.subrange(0, 1)));
            } else {
                assert(r@ =~= spec_display_path(pv.subrange(0, i as int + 1)));
            }
        }
        i = i + 1;
    }
    proof {
        assert(pv.subrange(0, pv.len() as int) =~~= pv);
    }
    r
}

} // verus!
