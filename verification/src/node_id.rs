//! Node names on the wire: a node's numeric id is written as upper-case
//! hexadecimal, at least four digits wide, and parsed back from hexadecimal
//! of either case; client message ids are hashed down to a 32-bit request id.

use std::collections::hash_map::DefaultHasher;
use std::hash::Hasher;
use vstd::prelude::*;
use vstd::std_specs::hash::DefaultHasherAdditionalSpecFns;
use vstd::string::StringSliceAdditionalSpecFns;

verus! {

/// The character is a hexadecimal digit of either case.
pub open spec fn is_hex_digit(c: char) -> bool {
    (48 <= c as u32 && c as u32 <= 57) || (65 <= c as u32 && c as u32 <= 70) || (97 <= c as u32
        && c as u32 <= 102)
}

/// The numeric value of one hexadecimal digit of either case.
pub open spec fn hex_digit_val(c: char) -> u32
    recommends
        is_hex_digit(c),
{
    if 48 <= c as u32 && c as u32 <= 57 {
        (c as u32 - 48) as u32
    } else if 97 <= c as u32 && c as u32 <= 102 {
        (c as u32 - 87) as u32
    } else {
        (c as u32 - 55) as u32
    }
}

/// The number the digit string denotes, most significant digit first.
pub open spec fn hex_value(s: Seq<char>) -> nat
    recommends
        forall|i: int| 0 <= i < s.len() ==> is_hex_digit(#[trigger] s[i]),
    decreases s.len(),
{
    if s.len() == 0 {
        0
    } else {
        (hex_value(s.drop_last()) * 16 + hex_digit_val(s.last())) as nat
    }
}

pub open spec fn pow16(n: nat) -> nat
    decreases n,
{
    if n == 0 {
        1
    } else {
        16 * pow16((n - 1) as nat)
    }
}

proof fn lemma_pow16_le(a: nat, b: nat)
    requires
        a <= b,
    ensures
        pow16(a) <= pow16(b),
        pow16(a) >= 1,
    decreases b,
{
    if b == 0 {
    } else if a == b {
        lemma_pow16_le((a - 1) as nat, (b - 1) as nat);
    } else {
        lemma_pow16_le(a, (b - 1) as nat);
    }
}

proof fn lemma_hex_value_bound(s: Seq<char>)
    requires
        forall|i: int| 0 <= i < s.len() ==> is_hex_digit(#[trigger] s[i]),
    ensures
        hex_value(s) < pow16(s.len()),
    decreases s.len(),
{
    if s.len() == 0 {
    } else {
        assert(forall|i: int| 0 <= i < s.drop_last().len() ==> s.drop_last()[i] == s[i]);
        lemma_hex_value_bound(s.drop_last());
        assert(hex_digit_val(s.last()) < 16);
    }
}

proof fn lemma_pow16_of_8()
    ensures
        pow16(8) == 0x1_0000_0000,
{
    assert(pow16(0) == 1);
    assert(pow16(1) == 16);
    assert(pow16(2) == 256);
    assert(pow16(3) == 0x1000);
    assert(pow16(4) == 0x1_0000);
    assert(pow16(5) == 0x10_0000);
    assert(pow16(6) == 0x100_0000);
    assert(pow16(7) == 0x1000_0000);
}

/// Parses a node name as hexadecimal of either case: at most eight digits, so
/// the value always fits the 32-bit id space.
pub fn network_name_to_num(name: &str) -> (r: u32)
    requires
        1 <= name@.len() <= 8,
        forall|i: int| 0 <= i < name@.len() ==> is_hex_digit(#[trigger] name@[i]),
    ensures
        r == hex_value(name@),
{
    let n = name.unicode_len();
    let mut acc: u32 = 0;
    let mut i: usize = 0;
    while i < n
        invariant
            n == name@.len(),
            1 <= n <= 8,
            forall|k: int| 0 <= k < name@.len() ==> is_hex_digit(#[trigger] name@[k]),
            i <= n,
            acc == hex_value(name@.take(i as int)),
            acc < pow16(i as nat),
        decreases n - i,
    {
        let c = name.get_char(i);
        let cv = c as u32;
        proof {
            assert(is_hex_digit(name@[i as int]));
        }
        let d = if cv >= 97 {
            cv - 87
        } else if cv >= 65 {
            cv - 55
        } else {
            cv - 48
        };
        proof {
            assert(d == hex_digit_val(name@[i as int]));
            assert(d < 16);
            lemma_pow16_le((i + 1) as nat, 8);
            lemma_pow16_of_8();
            assert(acc * 16 + d < pow16((i + 1) as nat));
        }
        acc = acc * 16 + d;
        proof {
            assert(name@.take(i + 1).drop_last() =~= name@.take(i as int));
            assert(name@.take(i + 1).last() == name@[i as int]);
        }
        i = i + 1;
    }
    proof {
        assert(name@.take(n as int) =~= name@);
    }
    acc
}

/// The upper-case character of one hexadecimal digit.
pub open spec fn hex_digit_char(d: u32) -> char
    recommends
        d < 16,
{
    if d == 0 {
        '0'
    } else if d == 1 {
        '1'
    } else if d == 2 {
        '2'
    } else if d == 3 {
        '3'
    } else if d == 4 {
        '4'
    } else if d == 5 {
        '5'
    } else if d == 6 {
        '6'
    } else if d == 7 {
        '7'
    } else if d == 8 {
        '8'
    } else if d == 9 {
        '9'
    } else if d == 10 {
        'A'
    } else if d == 11 {
        'B'
    } else if d == 12 {
        'C'
    } else if d == 13 {
        'D'
    } else if d == 14 {
        'E'
    } else {
        'F'
    }
}

/// The upper-case hexadecimal digits of `n`, most significant first, with no
/// leading zero except for zero itself.
pub open spec fn hex_digits(n: u32) -> Seq<char>
    decreases n,
{
    if n < 16 {
        seq![hex_digit_char(n)]
    } else {
        hex_digits(n / 16).push(hex_digit_char(n % 16))
    }
}

/// A node's wire name: its id in upper-case hexadecimal, left-padded with
/// zeros to at least four digits.
pub open spec fn hex_name(n: u32) -> Seq<char> {
    let d = hex_digits(n);
    if d.len() >= 4 {
        d
    } else {
        Seq::new((4 - d.len()) as nat, |i: int| '0') + d
    }
}

/// The one-character string of one hexadecimal digit.
fn hex_digit_str(d: u32) -> (r: &'static str)
    requires
        d < 16,
    ensures
        r@ == seq![hex_digit_char(d)],
{
    proof {
        reveal_strlit("0");
        reveal_strlit("1");
        reveal_strlit("2");
        reveal_strlit("3");
        reveal_strlit("4");
        reveal_strlit("5");
        reveal_strlit("6");
        reveal_strlit("7");
        reveal_strlit("8");
        reveal_strlit("9");
        reveal_strlit("A");
        reveal_strlit("B");
        reveal_strlit("C");
        reveal_strlit("D");
        reveal_strlit("E");
        reveal_strlit("F");
    }
    let r = match d {
        0 => "0",
        1 => "1",
        2 => "2",
        3 => "3",
        4 => "4",
        5 => "5",
        6 => "6",
        7 => "7",
        8 => "8",
        9 => "9",
        10 => "A",
        11 => "B",
        12 => "C",
        13 => "D",
        14 => "E",
        _ => "F",
    };
    assert(r@ =~= seq![hex_digit_char(d)]);
    r
}

/// The digit characters of the collected low-to-high digits, read back most
/// significant first.
pub open spec fn rev_digit_chars(ds: Seq<u32>) -> Seq<char> {
    Seq::new(ds.len(), |i: int| hex_digit_char(ds[ds.len() - 1 - i]))
}

/// Formats a node id as its wire name: upper-case hexadecimal, left-padded
/// with zeros to at least four digits.
pub fn num_to_network_name(n: u32) -> (r: String)
    ensures
        r@ == hex_name(n),
{
    let mut digits: Vec<u32> = Vec::new();
    let mut m: u32 = n;
    while m >= 16
        invariant
            forall|j: int| 0 <= j < digits@.len() ==> #[trigger] digits@[j] < 16,
            hex_digits(n) == hex_digits(m) + rev_digit_chars(digits@),
        decreases m,
    {
        proof {
            let ds = digits@;
            let d = m % 16;
            assert(rev_digit_chars(ds.push(d)) =~= seq![hex_digit_char(d)] + rev_digit_chars(ds));
            assert(hex_digits(m / 16) + (seq![hex_digit_char(d)] + rev_digit_chars(ds)) =~= (
            hex_digits(m / 16).push(hex_digit_char(d))) + rev_digit_chars(ds));
        }
        digits.push(m % 16);
        m = m / 16;
    }
    proof {
        let ds = digits@;
        assert(rev_digit_chars(ds.push(m)) =~= seq![hex_digit_char(m)] + rev_digit_chars(ds));
        assert(seq![hex_digit_char(m)] =~= hex_digits(m));
        assert(hex_digits(m) + rev_digit_chars(ds) =~= rev_digit_chars(ds.push(m)));
    }
    digits.push(m);
    assert(hex_digits(n) == rev_digit_chars(digits@));
    let dcount = digits.len();
    let mut out = String::new();
    let pad: usize = if dcount >= 4 {
        0
    } else {
        4 - dcount
    };
    let ghost zeros = Seq::new(pad as nat, |i: int| '0');
    for p in 0..pad
        invariant
            zeros == Seq::new(pad as nat, |i: int| '0'),
            out@ =~= zeros.take(p as int),
    {
        proof {
            reveal_strlit("0");
        }
        out.append("0");
        proof {
            assert(out@ =~= zeros.take(p + 1));
        }
    }
    proof {
        assert(out@ =~= zeros);
    }
    let ghost rev = rev_digit_chars(digits@);
    for idx in 0..dcount
        invariant
            dcount == digits@.len(),
            forall|j: int| 0 <= j < digits@.len() ==> #[trigger] digits@[j] < 16,
            rev == rev_digit_chars(digits@),
            out@ =~= zeros + rev.take(idx as int),
    {
        let d = digits[dcount - 1 - idx];
        out.append(hex_digit_str(d));
        proof {
            assert(rev[idx as int] == hex_digit_char(digits@[dcount - 1 - idx]));
            assert(out@ =~= zeros + rev.take(idx + 1));
        }
    }
    proof {
        assert(rev.take(dcount as int) =~= rev);
        assert(out@ =~= hex_name(n));
    }
    out
}

/// Hashes a client message id down to a 32-bit request id: the top half of
/// the standard hasher's digest of the text's bytes. Equal texts always hash
/// equal.
pub fn hash(s: &str) -> (r: u32)
    ensures
        r == (DefaultHasher::spec_finish(seq![s.spec_bytes()]) >> 32) as u32,
{
    let mut hasher = DefaultHasher::new();
    hasher.write(s.as_bytes());
    let h = hasher.finish();
    proof {
        assert(hasher@ =~= seq![s.spec_bytes()]);
        assert(h >> 32 <= 0xffff_ffffu64) by (bit_vector);
    }
    (h >> 32) as u32
}

} // verus!
