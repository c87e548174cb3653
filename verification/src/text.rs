use vstd::prelude::*;
use vstd::string::StringExecFns;

use crate::counter::Collision;

verus! {

/// Relies on String::push: appends the given character to the end of the
/// string (vstd gives this std function no specification).
#[verifier::external_body]
pub fn push_char(s: &mut String, c: char)
    ensures
        final(s)@ == old(s)@.push(c),
{
    s.push(c);
}

/// The character for one digit value below sixteen: `0`-`9`, then `a`-`f`.
pub open spec fn digit_char(n: u8) -> char
    recommends
        n < 16,
{
    if n < 10 {
        ((n + 48) as u8) as char
    } else {
        ((n + 87) as u8) as char
    }
}

/// The lowercase hexadecimal rendering of a byte sequence: two digits per
/// byte, high digit first.
pub open spec fn hex_of(bytes: Seq<u8>) -> Seq<char>
    decreases bytes.len(),
{
    if bytes.len() == 0 {
        Seq::empty()
    } else {
        hex_of(bytes.drop_last()) + seq![
            digit_char(bytes.last() / 16),
            digit_char(bytes.last() % 16),
        ]
    }
}

/// The decimal rendering of a natural number, without leading zeros (a lone
/// zero for zero itself).
pub open spec fn dec_of(n: nat) -> Seq<char>
    decreases n,
{
    if n < 10 {
        seq![digit_char(n as u8)]
    } else {
        dec_of(n / 10) + seq![digit_char((n % 10) as u8)]
    }
}

/// The character for one digit value below sixteen.
fn digit(n: u8) -> (c: char)
    requires
        n < 16,
    ensures
        c == digit_char(n),
{
    if n < 10 {
        (n + 48) as char
    } else {
        (n + 87) as char
    }
}

/// Renders a byte sequence as lowercase hexadecimal.
pub fn hex_string(bytes: &Vec<u8>) -> (s: String)
    ensures
        s@ == hex_of(bytes@),
{
    let mut s = String::new();
    let mut i: usize = 0;
    while i < bytes.len()
        invariant
            i <= bytes@.len(),
            s@ == hex_of(bytes@.take(i as int)),
        decreases bytes@.len() - i,
    {
        let b = bytes[i];
        push_char(&mut s, digit(b / 16));
        push_char(&mut s, digit(b % 16));
        proof {
            let pre = bytes@.take(i as int);
            let cur = bytes@.take(i + 1 as int);
            assert(cur.drop_last() =~= pre);
            assert(cur.last() == bytes@[i as int]);
            assert(s@ =~= hex_of(cur));
        }
        i = i + 1;
    }
    proof {
        assert(bytes@.take(bytes@.len() as int) =~= bytes@);
    }
    s
}

/// Renders a number in decimal.
pub fn decimal_string(n: usize) -> (s: String)
    ensures
        s@ == dec_of(n as nat),
    decreases n,
{
    if n < 10 {
        let mut s = String::new();
        push_char(&mut s, digit(n as u8));
        proof {
            assert(s@ =~= dec_of(n as nat));
        }
        s
    } else {
        let mut s = decimal_string(n / 10);
        push_char(&mut s, digit((n % 10) as u8));
        proof {
            assert(s@ =~= dec_of(n as nat));
        }
        s
    }
}

/// One line of the final report: the digest as lowercase hexadecimal, a
/// colon and a space, then the count in decimal.
pub fn report_line(c: &Collision) -> (line: String)
    ensures
        line@ == hex_of(c.hash@) + seq![':', ' '] + dec_of(c.count as nat),
{
    let mut s = hex_string(&c.hash);
    push_char(&mut s, ':');
    push_char(&mut s, ' ');
    let d = decimal_string(c.count);
    s.append(d.as_str());
    proof {
        assert(s@ =~= hex_of(c.hash@) + seq![':', ' '] + dec_of(c.count as nat));
    }
    s
}

} // verus!
