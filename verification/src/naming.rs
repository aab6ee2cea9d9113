//! Names of decoded images: a fixed prefix and the timestamp in
//! milliseconds, zero-padded to a fixed width so that names sort by time.

use vstd::prelude::*;
use vstd::string::StringExecFns;

verus! {

/// Number of decimal digits in a name; wide enough for any 64-bit value.
pub const NAME_DIGITS: usize = 20;

/// Ten to the power `e`.
pub open spec fn pow10(e: nat) -> nat
    decreases e,
{
    if e == 0 {
        1
    } else {
        10 * pow10((e - 1) as nat)
    }
}

/// The decimal digit of `v` that counts `pow10(place)`.
pub open spec fn decimal_digit(v: nat, place: nat) -> nat {
    (v / pow10(place)) % 10
}

/// The character that writes the digit `d`.
pub open spec fn digit_char(d: nat) -> char {
    if d == 0 {
        '0'
    } else if d == 1 {
        '1'
    } else if d == 2 {
        '2'
    } else if d == 3 {
        '3'
    } else if d == 4 {
        '4'
    } else if d == 5 {
        '5'
    } else if d == 6 {
        '6'
    } else if d == 7 {
        '7'
    } else if d == 8 {
        '8'
    } else {
        '9'
    }
}

/// `v` in decimal, most significant digit first, padded with zeros to
/// twenty digits.
pub open spec fn padded_decimal(v: nat) -> Seq<char> {
    Seq::new(20, |i: int| digit_char(decimal_digit(v, (19 - i) as nat)))
}

/// What every name starts with.
pub open spec fn name_prefix() -> Seq<char> {
    seq!['f', 'r', 'a', 'm', 'e', '_']
}

/// The name of the image shown at `millis` milliseconds.
pub open spec fn frame_name_of(millis: nat) -> Seq<char> {
    name_prefix() + padded_decimal(millis)
}

/// Powers of ten are positive.
pub proof fn lemma_pow10_positive(e: nat)
    ensures
        pow10(e) > 0,
    decreases e,
{
    if e > 0 {
        lemma_pow10_positive((e - 1) as nat);
    }
}

/// The digit `d` as a string of one character.
fn digit_str(d: u64) -> (s: &'static str)
    requires
        d < 10,
    ensures
        s@ == seq![digit_char(d as nat)],
{
    proof {
        reveal_strlit("0");
        reveal_strlit("1");
        reveal_strlit("2");
        reveal_strlit("3");
        reveal_strlit("4");
        reveal_strlit("5");
        reveal_strlit("6");
        reveal_strlit("7");
        reveal_strlit("8");
        reveal_strlit("9");
    }
    let s = if d == 0 {
        "0"
    } else if d == 1 {
        "1"
    } else if d == 2 {
        "2"
    } else if d == 3 {
        "3"
    } else if d == 4 {
        "4"
    } else if d == 5 {
        "5"
    } else if d == 6 {
        "6"
    } else if d == 7 {
        "7"
    } else if d == 8 {
        "8"
    } else {
        "9"
    };
    assert(s@ =~= seq![digit_char(d as nat)]);
    s
}

/// Builds the name of the image shown at `millis` milliseconds.
pub fn frame_name(millis: u64) -> (name: String)
    ensures
        name@ == frame_name_of(millis as nat),
{
    let mut name = String::from_str("frame_");
    proof {
        reveal_strlit("frame_");
        assert(name@ =~= name_prefix());
        reveal_with_fuel(pow10, 20);
        assert(pow10(19) == 10_000_000_000_000_000_000u64);
    }
    let mut divisor: u64 = 10_000_000_000_000_000_000;
    let mut i: usize = 0;
    while i < NAME_DIGITS
        invariant
            i <= 20,
            i < 20 ==> divisor == pow10((19 - i) as nat),
            name@ == name_prefix() + padded_decimal(millis as nat).subrange(0, i as int),
        decreases 20 - i,
    {
        proof {
            lemma_pow10_positive((19 - i) as nat);
        }
        let d: u64 = (millis / divisor) % 10;
        name.append(digit_str(d));
        proof {
            let all = padded_decimal(millis as nat);
            assert(all[i as int] == digit_char(d as nat));
            assert(all.subrange(0, i + 1) =~= all.subrange(0, i as int).push(all[i as int]));
            assert(name@ =~= name_prefix() + all.subrange(0, i + 1));
        }
        divisor = divisor / 10;
        i += 1;
    }
    assert(name@ =~= frame_name_of(millis as nat));
    name
}

} // verus!
