use vstd::prelude::*;

verus! {

/// The ten decimal digit characters.
pub open spec fn is_digit_char(c: char) -> bool {
    ||| c == '0'
    ||| c == '1'
    ||| c == '2'
    ||| c == '3'
    ||| c == '4'
    ||| c == '5'
    ||| c == '6'
    ||| c == '7'
    ||| c == '8'
    ||| c == '9'
}

/// The numeric value of a digit character.
pub open spec fn digit_value(c: char) -> int {
    if c == '0' {
        0
    } else if c == '1' {
        1
    } else if c == '2' {
        2
    } else if c == '3' {
        3
    } else if c == '4' {
        4
    } else if c == '5' {
        5
    } else if c == '6' {
        6
    } else if c == '7' {
        7
    } else if c == '8' {
        8
    } else {
        9
    }
}

/// The digit character of a value in `0 ..= 9`.
pub open spec fn digit_char(d: int) -> char {
    if d == 0 {
        '0'
    } else if d == 1 {
        '1'
    } else if d == 2 {
        '2'
    } else if d == 3 {
        '3'
    } else if d == 4 {
        '4'
    } else if d == 5 {
        '5'
    } else if d == 6 {
        '6'
    } else if d == 7 {
        '7'
    } else if d == 8 {
        '8'
    } else {
        '9'
    }
}

/// The value of a digit string read left to right; 0 for the empty string.
pub open spec fn digits_value(t: Seq<char>) -> int
    decreases t.len(),
{
    if t.len() == 0 {
        0
    } else {
        digits_value(t.drop_last()) * 10 + digit_value(t.last())
    }
}

/// A signed decimal integer text: an optional minus sign followed by one or
/// more digits, and nothing else.
pub open spec fn valid_int_text(t: Seq<char>) -> bool {
    if t.len() == 0 {
        false
    } else if t[0] == '-' {
        t.len() >= 2 && forall|k: int| 1 <= k < t.len() ==> is_digit_char(#[trigger] t[k])
    } else {
        forall|k: int| 0 <= k < t.len() ==> is_digit_char(#[trigger] t[k])
    }
}

/// The signed value of an integer text.
pub open spec fn int_text_value(t: Seq<char>) -> int {
    if t.len() > 0 && t[0] == '-' {
        -digits_value(t.subrange(1, t.len() as int))
    } else {
        digits_value(t)
    }
}

/// The canonical decimal text of a value `n >= 0`: no sign, and no leading
/// zero except in "0" itself.
pub open spec fn dec_digits(n: int) -> Seq<char>
    decreases n,
{
    if n <= 9 {
        seq![digit_char(n)]
    } else {
        dec_digits(n / 10).push(digit_char(n % 10))
    }
}

/// The canonical decimal text of any integer, a minus sign ahead of a
/// negative value.
pub open spec fn int_text(n: int) -> Seq<char> {
    if n < 0 {
        seq!['-'] + dec_digits(-n)
    } else {
        dec_digits(n)
    }
}

/// A valid digit string never contains a comma.
pub proof fn lemma_valid_int_no_comma(t: Seq<char>, j: int)
    requires
        valid_int_text(t),
        0 <= j < t.len(),
    ensures
        t[j] != ',',
{
    if t[0] == '-' {
        if j != 0 {
            assert(is_digit_char(t[j]));
        }
    } else {
        assert(is_digit_char(t[j]));
    }
}

/// The decimal text of a small value has at most three digits.
proof fn lemma_dec_digits_len(n: int)
    requires
        0 <= n <= 999,
    ensures
        1 <= dec_digits(n).len() <= 3,
{
    if n <= 9 {
    } else if n <= 99 {
        assert(dec_digits(n / 10).len() == 1);
    } else {
        assert(dec_digits(n / 10 / 10).len() == 1);
        assert(dec_digits(n / 10).len() == 2);
    }
}

/// The numeric value of a digit character, if it is one.
pub fn digit_of(c: char) -> (r: Option<u8>)
    ensures
        r == (if is_digit_char(c) {
            Some(digit_value(c) as u8)
        } else {
            None::<u8>
        }),
{
    if c == '0' {
        Some(0)
    } else if c == '1' {
        Some(1)
    } else if c == '2' {
        Some(2)
    } else if c == '3' {
        Some(3)
    } else if c == '4' {
        Some(4)
    } else if c == '5' {
        Some(5)
    } else if c == '6' {
        Some(6)
    } else if c == '7' {
        Some(7)
    } else if c == '8' {
        Some(8)
    } else if c == '9' {
        Some(9)
    } else {
        None
    }
}

/// The one-character text of a digit value.
fn digit_str(d: u8) -> (r: &'static str)
    requires
        d <= 9,
    ensures
        r@ == seq![digit_char(d as int)],
{
    proof {
        reveal_strlit("0");
        reveal_strlit("1");
        reveal_strlit("2");
        reveal_strlit("3");
        reveal_strlit("4");
        reveal_strlit("5");
        reveal_strlit("6");
        reveal_strlit("7");
        reveal_strlit("8");
        reveal_strlit("9");
    }
    let r = if d == 0 {
        "0"
    } else if d == 1 {
        "1"
    } else if d == 2 {
        "2"
    } else if d == 3 {
        "3"
    } else if d == 4 {
        "4"
    } else if d == 5 {
        "5"
    } else if d == 6 {
        "6"
    } else if d == 7 {
        "7"
    } else if d == 8 {
        "8"
    } else {
        "9"
    };
    proof {
        assert(r@ =~= seq![digit_char(d as int)]);
    }
    r
}

/// Appends the canonical decimal text of `n`.
pub fn push_dec(out: &mut String, n: u32)
    ensures
        final(out)@ == old(out)@ + dec_digits(n as int),
    decreases n,
{
    if n <= 9 {
        out.append(digit_str(n as u8));
    } else {
        push_dec(out, n / 10);
        out.append(digit_str((n % 10) as u8));
        proof {
            assert(old(out)@ + dec_digits((n / 10) as int) + seq![digit_char((n % 10) as int)]
                =~= old(out)@ + dec_digits(n as int));
        }
    }
}

/// Appends the canonical decimal text of a signed cell component.
pub fn push_int(out: &mut String, v: i8)
    ensures
        final(out)@ == old(out)@ + int_text(v as int),
{
    if v < 0 {
        proof {
            reveal_strlit("-");
        }
        out.append("-");
        let mag = -(v as i32);
        push_dec(out, mag as u32);
        proof {
            assert("-"@ =~= seq!['-']);
            assert(old(out)@ + "-"@ + dec_digits(mag as int) =~= old(out)@ + int_text(v as int));
        }
    } else {
        push_dec(out, v as u32);
    }
}

/// The length of the canonical decimal text of `n`.
pub fn dec_len(n: u32) -> (r: usize)
    requires
        n <= 999,
    ensures
        r == dec_digits(n as int).len(),
        r <= 3,
    decreases n,
{
    proof {
        lemma_dec_digits_len(n as int);
    }
    if n <= 9 {
        1
    } else {
        proof {
            lemma_dec_digits_len((n / 10) as int);
        }
        1 + dec_len(n / 10)
    }
}

/// The length of the canonical decimal text of a signed cell component.
pub fn int_len(v: i8) -> (r: usize)
    ensures
        r == int_text(v as int).len(),
        r <= 4,
{
    if v < 0 {
        let mag = -(v as i32);
        proof {
            lemma_dec_digits_len(mag as int);
        }
        1 + dec_len(mag as u32)
    } else {
        dec_len(v as u32)
    }
}

} // verus!
