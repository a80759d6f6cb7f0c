use vstd::prelude::*;

use crate::error::Error;
use crate::text::{
    digit_of, digit_value, digits_value, int_text_value, is_digit_char, lemma_valid_int_no_comma,
    valid_int_text,
};

verus! {

/// A 2D cell address. A pure value type: two coordinates are equal exactly
/// when both components are equal. Bounds are a board concern, not a
/// coordinate concern.
#[derive(PartialEq, Eq, Structural, Clone, Copy, Debug)]
pub struct Coordinates {
    pub x: i8,
    pub y: i8,
}

impl View for Coordinates {
    type V = (int, int);

    /// The mathematical value of a coordinate: its components as unbounded
    /// integers.
    open spec fn view(&self) -> (int, int) {
        (self.x as int, self.y as int)
    }
}

impl DeepView for Coordinates {
    type V = (int, int);

    open spec fn deep_view(&self) -> (int, int) {
        self.view()
    }
}

/// A value that fits in a signed cell component.
pub open spec fn i8_fits(v: int) -> bool {
    -128 <= v <= 127
}

/// The text `s` reads as the coordinate pair `(x, y)`: some comma splits it
/// into two valid signed decimal integer texts with those values, and
/// nothing else is in the text.
pub open spec fn parses_to(s: Seq<char>, x: int, y: int) -> bool {
    exists|i: int|
        0 <= i < s.len() && s[i] == ',' && valid_int_text(#[trigger] s.subrange(0, i))
            && valid_int_text(s.subrange(i + 1, s.len() as int)) && x == int_text_value(
            s.subrange(0, i),
        ) && y == int_text_value(s.subrange(i + 1, s.len() as int))
}

/// A coordinate text has at most one reading: any two parses of the same
/// text agree on both components.
pub proof fn lemma_parses_to_unique(s: Seq<char>, x1: int, y1: int, x2: int, y2: int)
    requires
        parses_to(s, x1, y1),
        parses_to(s, x2, y2),
    ensures
        x1 == x2,
        y1 == y2,
{
    let i1 = choose|i: int|
        0 <= i < s.len() && s[i] == ',' && valid_int_text(#[trigger] s.subrange(0, i))
            && valid_int_text(s.subrange(i + 1, s.len() as int)) && x1 == int_text_value(
            s.subrange(0, i),
        ) && y1 == int_text_value(s.subrange(i + 1, s.len() as int));
    let i2 = choose|i: int|
        0 <= i < s.len() && s[i] == ',' && valid_int_text(#[trigger] s.subrange(0, i))
            && valid_int_text(s.subrange(i + 1, s.len() as int)) && x2 == int_text_value(
            s.subrange(0, i),
        ) && y2 == int_text_value(s.subrange(i + 1, s.len() as int));
    if i1 < i2 {
        assert(s.subrange(0, i2)[i1] == s[i1]);
        lemma_valid_int_no_comma(s.subrange(0, i2), i1);
    }
    if i2 < i1 {
        assert(s.subrange(0, i1)[i2] == s[i2]);
        lemma_valid_int_no_comma(s.subrange(0, i1), i2);
    }
}

/// The position of the first comma of the text, if any.
fn find_comma(s: &str) -> (r: Option<usize>)
    ensures
        match r {
            Some(i) => i < s@.len() && s@[i as int] == ',' && forall|j: int|
                0 <= j < i ==> s@[j] != ',',
            None => forall|j: int| 0 <= j < s@.len() ==> s@[j] != ',',
        },
{
    let n = s.unicode_len();
    let mut i: usize = 0;
    while i < n
        invariant
            i <= n,
            n == s@.len(),
            forall|j: int| 0 <= j < i ==> s@[j] != ',',
        decreases n - i,
    {
        if s.get_char(i) == ',' {
            return Some(i);
        }
        i += 1;
    }
    None
}

/// Reads the characters `from .. to` of `s` as one signed decimal integer
/// that fits in a cell component.
fn parse_component(s: &str, from: usize, to: usize) -> (r: Option<i8>)
    requires
        from <= to <= s@.len(),
    ensures
        ({
            let t = s@.subrange(from as int, to as int);
            match r {
                Some(v) => valid_int_text(t) && v as int == int_text_value(t),
                None => !(valid_int_text(t) && i8_fits(int_text_value(t))),
            }
        }),
{
    let ghost t = s@.subrange(from as int, to as int);
    if from == to {
        return None;
    }
    let neg = s.get_char(from) == '-';
    let start = if neg {
        from + 1
    } else {
        from
    };
    if start == to {
        proof {
            if neg {
                assert(t.len() == 1 && t[0] == '-');
            }
        }
        return None;
    }
    let mut mag: u32 = 0;
    let mut too_big = false;
    let mut k = start;
    while k < to
        invariant
            from <= start <= k <= to <= s@.len(),
            start < to,
            t == s@.subrange(from as int, to as int),
            neg ==> start == from + 1 && s@[from as int] == '-',
            !neg ==> start == from && s@[from as int] != '-',
            forall|j: int| start <= j < k ==> is_digit_char(#[trigger] s@[j]),
            mag <= 128,
            !too_big ==> mag as int == digits_value(s@.subrange(start as int, k as int)),
            too_big ==> digits_value(s@.subrange(start as int, k as int)) > 128,
        decreases to - k,
    {
        let c = s.get_char(k);
        let d_opt = digit_of(c);
        if d_opt.is_none() {
            proof {
                let p = k - from;
                assert(t[p as int] == s@[k as int]);
                if neg {
                    assert(t[0] == '-');
                } else {
                    assert(t[0] == s@[from as int]);
                }
                assert(!valid_int_text(t));
            }
            return None;
        }
        let d = d_opt.unwrap();
        proof {
            let q = s@.subrange(start as int, k as int);
            assert(s@.subrange(start as int, k + 1) =~= q.push(s@[k as int]));
            assert(q.push(s@[k as int]).drop_last() =~= q);
            assert(digits_value(s@.subrange(start as int, k + 1)) == digits_value(q) * 10
                + digit_value(s@[k as int]));
        }
        if !too_big {
            let m2 = mag * 10 + (d as u32);
            if m2 > 128 {
                too_big = true;
            } else {
                mag = m2;
            }
        }
        k += 1;
    }
    proof {
        assert(t.len() == to - from);
        if neg {
            assert(t[0] == '-');
            assert forall|j: int| 1 <= j < t.len() implies is_digit_char(#[trigger] t[j]) by {
                assert(t[j] == s@[from + j]);
            }
            assert(valid_int_text(t));
            assert(t.subrange(1, t.len() as int) =~= s@.subrange(start as int, to as int));
            assert(int_text_value(t) == -digits_value(s@.subrange(start as int, to as int)));
        } else {
            assert forall|j: int| 0 <= j < t.len() implies is_digit_char(#[trigger] t[j]) by {
                assert(t[j] == s@[from + j]);
            }
            assert(t[0] != '-');
            assert(valid_int_text(t));
            assert(t =~= s@.subrange(start as int, to as int));
            assert(int_text_value(t) == digits_value(s@.subrange(start as int, to as int)));
        }
    }
    if too_big {
        return None;
    }
    if neg {
        let v = (-(mag as i32)) as i8;
        Some(v)
    } else {
        if mag > 127 {
            return None;
        }
        Some(mag as i8)
    }
}

impl Coordinates {
    /// Reads a coordinate from its canonical text `<x>,<y>`: two signed
    /// decimal integers split by one comma, with no other characters around
    /// them. Both components must fit in the cell component type; no bounds
    /// check is performed here, bounds are a board concern.
    pub fn from_str(s: &str) -> (r: Result<Coordinates, Error>)
        ensures
            match r {
                Ok(c) => parses_to(s@, c.x as int, c.y as int),
                Err(e) => e == Error::ParseError && forall|x: int, y: int|
                    i8_fits(x) && i8_fits(y) ==> !parses_to(s@, x, y),
            },
    {
        let comma = find_comma(s);
        match comma {
            None => {
                proof {
                    assert forall|x: int, y: int| i8_fits(x) && i8_fits(y) implies !parses_to(
                        s@,
                        x,
                        y,
                    ) by {
                        if parses_to(s@, x, y) {
                            let i = choose|i: int|
                                0 <= i < s@.len() && s@[i] == ',' && valid_int_text(
                                    #[trigger] s@.subrange(0, i),
                                ) && valid_int_text(s@.subrange(i + 1, s@.len() as int)) && x
                                    == int_text_value(s@.subrange(0, i)) && y == int_text_value(
                                    s@.subrange(i + 1, s@.len() as int),
                                );
                            assert(s@[i] == ',');
                        }
                    }
                }
                Err(Error::ParseError)
            },
            Some(ci) => {
                let n = s.unicode_len();
                let x_opt = parse_component(s, 0, ci);
                let y_opt = parse_component(s, ci + 1, n);
                let ghost left = s@.subrange(0, ci as int);
                let ghost right = s@.subrange(ci + 1, s@.len() as int);
                match (x_opt, y_opt) {
                    (Some(x), Some(y)) => {
                        proof {
                            assert(s@[ci as int] == ',');
                            assert(valid_int_text(left) && x as int == int_text_value(left));
                            assert(valid_int_text(right) && y as int == int_text_value(right));
                        }
                        Ok(Coordinates { x, y })
                    },
                    _ => {
                        proof {
                            assert forall|x: int, y: int| i8_fits(x) && i8_fits(y) implies !parses_to(
                                s@,
                                x,
                                y,
                            ) by {
                                if parses_to(s@, x, y) {
                                    let i = choose|i: int|
                                        0 <= i < s@.len() && s@[i] == ',' && valid_int_text(
                                            #[trigger] s@.subrange(0, i),
                                        ) && valid_int_text(s@.subrange(i + 1, s@.len() as int))
                                            && x == int_text_value(s@.subrange(0, i)) && y
                                            == int_text_value(s@.subrange(i + 1, s@.len() as int));
                                    if i < ci {
                                        assert(s@[i] != ',');
                                    } else if i > ci {
                                        assert(s@.subrange(0, i)[ci as int] == s@[ci as int]);
                                        lemma_valid_int_no_comma(s@.subrange(0, i), ci as int);
                                    } else {
                                        assert(s@.subrange(0, i) == left);
                                        assert(s@.subrange(i + 1, s@.len() as int) == right);
                                    }
                                }
                            }
                        }
                        Err(Error::ParseError)
                    },
                }
            },
        }
    }
}

} // verus!
