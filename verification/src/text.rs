//! Character-level helpers: reading the characters of a string and writing
//! numbers in positional notation.

use vstd::prelude::*;

verus! {

/// Collects the characters of `s` into a vector.
pub fn chars_of(s: &str) -> (v: Vec<char>)
    ensures
        v@ == s@,
{
    broadcast use vstd::string::group_string_axioms;

    let mut v: Vec<char> = Vec::new();
    for c in it: s.chars()
        invariant
            v@ == it.seq().take(it.index()),
            it.seq() == s@,
    {
        v.push(c);
    }
    v
}

/// Tells whether two vectors hold the same characters.
pub fn same_chars(a: &Vec<char>, b: &Vec<char>) -> (same: bool)
    ensures
        same == (a@ == b@),
{
    if a.len() != b.len() {
        return false;
    }
    let mut i: usize = 0;
    while i < a.len()
        invariant
            i <= a@.len(),
            a@.len() == b@.len(),
            forall|k: int| 0 <= k < i ==> a@[k] == b@[k],
        decreases a@.len() - i,
    {
        if a[i] != b[i] {
            return false;
        }
        i = i + 1;
    }
    assert(a@ =~= b@);
    true
}

/// The character that writes the digit `d`; digits above nine have none
/// and are written as `'?'`.
pub open spec fn digit_char(d: nat) -> char {
    if d == 0 {
        '0'
    } else if d == 1 {
        '1'
    } else if d == 2 {
        '2'
    } else if d == 3 {
        '3'
    } else if d == 4 {
        '4'
    } else if d == 5 {
        '5'
    } else if d == 6 {
        '6'
    } else if d == 7 {
        '7'
    } else if d == 8 {
        '8'
    } else if d == 9 {
        '9'
    } else {
        '?'
    }
}

/// `n` written in base `radix`, most significant digit first, without
/// leading zeros (zero itself is written `0`).
pub open spec fn radix_digits(n: nat, radix: nat) -> Seq<char>
    decreases n,
{
    if radix < 2 || n < radix {
        seq![digit_char(n)]
    } else {
        proof {
            vstd::arithmetic::div_mod::lemma_div_decreases(n as int, radix as int);
        }
        radix_digits(n / radix, radix).push(digit_char(n % radix))
    }
}

/// `count` copies of the character `'0'`.
pub open spec fn zeros(count: nat) -> Seq<char> {
    Seq::new(count, |i: int| '0')
}

/// `n` in decimal, padded on the left with zeros to at least `width`
/// characters.
pub open spec fn padded_decimal(n: nat, width: nat) -> Seq<char> {
    let digits = radix_digits(n, 10);
    if digits.len() >= width {
        digits
    } else {
        zeros((width - digits.len()) as nat) + digits
    }
}

fn digit_str(d: u64) -> (s: &'static str)
    requires
        d < 10,
    ensures
        s@ == seq![digit_char(d as nat)],
{
    proof {
        reveal_strlit("0");
        reveal_strlit("1");
        reveal_strlit("2");
        reveal_strlit("3");
        reveal_strlit("4");
        reveal_strlit("5");
        reveal_strlit("6");
        reveal_strlit("7");
        reveal_strlit("8");
        reveal_strlit("9");
    }
    let s = if d == 0 {
        "0"
    } else if d == 1 {
        "1"
    } else if d == 2 {
        "2"
    } else if d == 3 {
        "3"
    } else if d == 4 {
        "4"
    } else if d == 5 {
        "5"
    } else if d == 6 {
        "6"
    } else if d == 7 {
        "7"
    } else if d == 8 {
        "8"
    } else {
        "9"
    };
    assert(s@ =~= seq![digit_char(d as nat)]);
    s
}

/// Appends `n`, written in base `radix`, to `out`.
pub fn append_radix(out: &mut String, n: u64, radix: u64)
    requires
        radix == 8 || radix == 10,
    ensures
        final(out)@ == old(out)@ + radix_digits(n as nat, radix as nat),
    decreases n,
{
    if n >= radix {
        append_radix(out, n / radix, radix);
    }
    out.append(digit_str(n % radix));
    assert(out@ =~= old(out)@ + radix_digits(n as nat, radix as nat));
}

/// Appends `n` in decimal to `out`, padded on the left with zeros to at
/// least `width` characters.
pub fn append_padded(out: &mut String, n: u64, width: usize)
    ensures
        final(out)@ == old(out)@ + padded_decimal(n as nat, width as nat),
{
    let mut digits = String::new();
    append_radix(&mut digits, n, 10);
    let len = digits.as_str().unicode_len();
    let mut written: usize = len;
    proof {
        reveal_strlit("0");
    }
    while written < width
        invariant
            len <= written,
            len < width ==> written <= width,
            len >= width ==> written == len,
            out@ == old(out)@ + zeros((written - len) as nat),
            "0"@ == seq!['0'],
        decreases width - written,
    {
        out.append("0");
        written = written + 1;
        assert(out@ =~= old(out)@ + zeros((written - len) as nat));
    }
    out.append(digits.as_str());
    proof {
        let pad = zeros((written - len) as nat);
        assert(out@ == old(out)@ + pad + digits@);
        if len >= width {
            assert(pad =~= Seq::<char>::empty());
            assert(old(out)@ + pad =~= old(out)@);
        } else {
            assert(old(out)@ + pad + digits@ =~= old(out)@ + (pad + digits@));
        }
    }
}

/// A byte count in hundredths of a kibibyte, rounded to the nearest
/// hundredth; a count that lies exactly between two goes to the even one.
pub open spec fn kib_hundredths(bytes: nat) -> nat {
    let whole = (bytes * 100) / 1024;
    let rest = (bytes * 100) % 1024;
    if rest > 512 || (rest == 512 && whole % 2 == 1) {
        whole + 1
    } else {
        whole
    }
}

/// The hundredths are the nearest to the exact quotient: they are off
/// by half a hundredth at most.
pub proof fn lemma_kib_hundredths_nearest(bytes: nat)
    ensures
        1024 * kib_hundredths(bytes) - 512 <= 100 * bytes <= 1024 * kib_hundredths(bytes) + 512,
{
}

/// A byte count in kibibytes with two decimal places, as in `1.50`.
pub open spec fn kib_text(bytes: nat) -> Seq<char> {
    let hundredths = kib_hundredths(bytes);
    radix_digits(hundredths / 100, 10) + seq!['.'] + padded_decimal(hundredths % 100, 2)
}

/// Appends a byte count in kibibytes, with two decimal places, to `out`.
pub fn append_kib(out: &mut String, bytes: u64)
    ensures
        final(out)@ == old(out)@ + kib_text(bytes as nat),
{
    let scaled: u128 = (bytes as u128) * 100;
    let whole: u64 = (scaled / 1024) as u64;
    let rest: u64 = (scaled % 1024) as u64;
    let hundredths: u64 = if rest > 512 || (rest == 512 && whole % 2 == 1) {
        whole + 1
    } else {
        whole
    };
    proof {
        reveal_strlit(".");
    }
    append_radix(out, hundredths / 100, 10);
    out.append(".");
    append_padded(out, hundredths % 100, 2);
    assert(out@ =~= old(out)@ + kib_text(bytes as nat));
}

} // verus!
