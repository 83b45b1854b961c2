//! One matrix cell as text: a signed decimal numeral. Parsing rejects
//! anything but an optional minus sign followed by digits, and any value
//! outside the i64 range; rendering produces the canonical numeral that
//! parses back to the value.

use vstd::prelude::*;

verus! {

/// A decimal digit character.
pub open spec fn is_digit(c: char) -> bool {
    48 <= c as u32 <= 57
}

/// The value of one digit character.
pub open spec fn digit_val(c: char) -> int {
    c as u32 - 48
}

/// Every character of `s` is a decimal digit.
pub open spec fn all_digits(s: Seq<char>) -> bool {
    forall|i: int| 0 <= i < s.len() ==> is_digit(#[trigger] s[i])
}

/// The value of a digit string read left to right.
pub open spec fn digits_val(s: Seq<char>) -> int
    decreases s.len(),
{
    if s.len() == 0 {
        0
    } else {
        digits_val(s.drop_last()) * 10 + digit_val(s.last())
    }
}

/// `s` is a well-formed cell: an optional minus sign followed by at least
/// one digit, denoting a value that fits in an i64.
pub open spec fn cell_valid(s: Seq<char>) -> bool {
    ||| (s.len() >= 1 && all_digits(s) && digits_val(s) <= i64::MAX)
    ||| (s.len() >= 2 && s[0] == '-' && all_digits(s.skip(1)) && -digits_val(s.skip(1))
        >= i64::MIN)
}

/// The value a cell denotes (meaningful when `cell_valid` holds).
pub open spec fn cell_int(s: Seq<char>) -> int {
    if s.len() >= 1 && s[0] == '-' {
        -digits_val(s.skip(1))
    } else {
        digits_val(s)
    }
}

/// A digit string never denotes a negative value.
pub proof fn lemma_digits_val_nonneg(s: Seq<char>)
    requires
        all_digits(s),
    ensures
        digits_val(s) >= 0,
    decreases s.len(),
{
    if s.len() > 0 {
        assert(forall|i: int| 0 <= i < s.drop_last().len() ==> s.drop_last()[i] == s[i]);
        lemma_digits_val_nonneg(s.drop_last());
    }
}

/// A digit string's value is at least the value of any of its prefixes.
pub proof fn lemma_digits_val_prefix_le(s: Seq<char>, j: int)
    requires
        0 <= j <= s.len(),
        all_digits(s),
    ensures
        digits_val(s.subrange(0, j)) <= digits_val(s),
    decreases s.len() - j,
{
    if j < s.len() {
        assert(s.subrange(0, j + 1).drop_last() =~= s.subrange(0, j));
        assert(s.subrange(0, j + 1).last() == s[j]);
        assert(forall|i: int| 0 <= i < s.subrange(0, j).len() ==> s.subrange(0, j)[i] == s[i]);
        lemma_digits_val_nonneg(s.subrange(0, j));
        assert(digits_val(s.subrange(0, j)) <= digits_val(s.subrange(0, j + 1)));
        lemma_digits_val_prefix_le(s, j + 1);
    } else {
        assert(s.subrange(0, j) =~= s);
    }
}

/// Parse one cell: `Some` exactly on well-formed cells, with the denoted
/// value.
#[verifier::loop_isolation(false)]
pub fn parse_cell(s: &Vec<char>) -> (r: Option<i64>)
    ensures
        match r {
            Some(v) => cell_valid(s@) && v as int == cell_int(s@),
            None => !cell_valid(s@),
        },
{
    let len = s.len();
    if len == 0 {
        return None;
    }
    let neg = s[0] == '-';
    let start: usize = if neg {
        1
    } else {
        0
    };
    if len <= start {
        proof {
            assert(!is_digit(s@[0]));
            assert(!cell_valid(s@));
        }
        return None;
    }
    let ghost d_part = s@.subrange(start as int, len as int);
    let mut acc: i64 = 0;
    let mut i = start;
    while i < len
        invariant
            start <= i <= len,
            all_digits(s@.subrange(start as int, i as int)),
            acc == -digits_val(s@.subrange(start as int, i as int)),
            acc <= 0,
        decreases len - i,
    {
        let c = s[i];
        let u = c as u32;
        proof {
            assert(s@.subrange(start as int, i as int + 1).drop_last() =~= s@.subrange(
                start as int,
                i as int,
            ));
            assert(s@.subrange(start as int, i as int + 1).last() == s@[i as int]);
        }
        if u < 48 || u > 57 {
            proof {
                assert(!is_digit(s@[i as int]));
                if neg {
                    assert(s@.skip(1)[i as int - 1] == s@[i as int]);
                    assert(!all_digits(s@.skip(1)));
                } else {
                    assert(!all_digits(s@));
                }
                assert(!cell_valid(s@));
            }
            return None;
        }
        let d = (u - 48) as i64;
        proof {
            assert(is_digit(s@[i as int]));
            assert(digit_val(s@[i as int]) == d as int);
            lemma_digits_val_nonneg(s@.subrange(start as int, i as int));
        }
        let ghost pv = digits_val(s@.subrange(start as int, i as int));
        let acc10 = match acc.checked_mul(10) {
            Some(a) => a,
            None => {
                proof {
                    assert(acc * 10 < i64::MIN);
                    assert(pv * 10 + digit_val(s@[i as int]) > 0x8000_0000_0000_0000);
                    lemma_value_too_large(s@, neg, start as int, i as int, d_part);
                }
                return None;
            },
        };
        acc = match acc10.checked_sub(d) {
            Some(a) => a,
            None => {
                proof {
                    assert(acc10 == acc * 10);
                    assert(pv * 10 + digit_val(s@[i as int]) > 0x8000_0000_0000_0000);
                    lemma_value_too_large(s@, neg, start as int, i as int, d_part);
                }
                return None;
            },
        };
        i += 1;
    }
    proof {
        assert(s@.subrange(start as int, len as int) == d_part);
        lemma_digits_val_nonneg(d_part);
        if neg {
            assert(s@.skip(1) =~= d_part);
        } else {
            assert(s@ =~= d_part);
        }
    }
    if neg {
        Some(acc)
    } else {
        if acc == i64::MIN {
            proof {
                assert(is_digit(s@[0]));
                assert(!cell_valid(s@));
            }
            return None;
        }
        Some(-acc)
    }
}

/// When the running value of the digits seen so far already exceeds the i64
/// magnitude bound, the whole cell is ill-formed: either a later character is
/// not a digit, or the full digit string's value is larger still.
proof fn lemma_value_too_large(s: Seq<char>, neg: bool, start: int, i: int, d_part: Seq<char>)
    requires
        0 <= start <= i < s.len(),
        neg ==> start == 1 && s[0] == '-',
        !neg ==> start == 0 && s[0] != '-',
        d_part == s.subrange(start, s.len() as int),
        all_digits(s.subrange(start, i)),
        is_digit(s[i]),
        digits_val(s.subrange(start, i)) * 10 + digit_val(s[i]) > 0x8000_0000_0000_0000,
    ensures
        !cell_valid(s),
{
    if neg {
        assert(!is_digit(s[0]));
        assert(!all_digits(s));
    }
    if all_digits(d_part) {
        assert(s.subrange(start, i + 1).drop_last() =~= s.subrange(start, i));
        assert(s.subrange(start, i + 1).last() == s[i]);
        assert(digits_val(s.subrange(start, i + 1)) > 0x8000_0000_0000_0000);
        assert(d_part.subrange(0, i + 1 - start) =~= s.subrange(start, i + 1));
        lemma_digits_val_prefix_le(d_part, i + 1 - start);
        assert(digits_val(d_part) > 0x8000_0000_0000_0000);
        if neg {
            assert(s.skip(1) =~= d_part);
            assert(!cell_valid(s));
        } else {
            assert(s =~= d_part);
            assert(!cell_valid(s));
        }
    } else {
        assert(exists|q: int| 0 <= q < d_part.len() && !is_digit(#[trigger] d_part[q]));
        let bad = choose|q: int| 0 <= q < d_part.len() && !is_digit(#[trigger] d_part[q]);
        assert(d_part[bad] == s[start + bad]);
        if neg {
            assert(s.skip(1)[bad] == d_part[bad]);
            assert(!all_digits(s.skip(1)));
        } else {
            assert(s =~= d_part);
            assert(!all_digits(s));
        }
        assert(!cell_valid(s));
    }
}

/// The character for one decimal digit value.
pub open spec fn digit_char(d: int) -> char {
    if d == 0 {
        '0'
    } else if d == 1 {
        '1'
    } else if d == 2 {
        '2'
    } else if d == 3 {
        '3'
    } else if d == 4 {
        '4'
    } else if d == 5 {
        '5'
    } else if d == 6 {
        '6'
    } else if d == 7 {
        '7'
    } else if d == 8 {
        '8'
    } else {
        '9'
    }
}

/// The decimal numeral of a nonnegative value, most significant digit first.
pub open spec fn render_nat(n: int) -> Seq<char>
    decreases n,
{
    if n < 10 {
        seq![digit_char(n)]
    } else {
        render_nat(n / 10).push(digit_char(n % 10))
    }
}

/// The canonical text of one cell value: its decimal numeral, with a minus
/// sign first for negative values.
pub open spec fn render_int(v: i64) -> Seq<char> {
    if v >= 0 {
        render_nat(v as int)
    } else {
        seq!['-'] + render_nat(-(v as int))
    }
}

fn digit_to_char(d: u64) -> (c: char)
    requires
        d < 10,
    ensures
        c == digit_char(d as int),
{
    if d == 0 {
        '0'
    } else if d == 1 {
        '1'
    } else if d == 2 {
        '2'
    } else if d == 3 {
        '3'
    } else if d == 4 {
        '4'
    } else if d == 5 {
        '5'
    } else if d == 6 {
        '6'
    } else if d == 7 {
        '7'
    } else if d == 8 {
        '8'
    } else {
        '9'
    }
}

/// Append the decimal numeral of `m` to `out`.
fn push_digits(m: u64, out: &mut Vec<char>)
    ensures
        final(out)@ == old(out)@ + render_nat(m as int),
    decreases m,
{
    if m < 10 {
        out.push(digit_to_char(m));
        proof {
            assert(out@ =~= old(out)@ + render_nat(m as int));
        }
    } else {
        push_digits(m / 10, out);
        out.push(digit_to_char(m % 10));
        proof {
            assert(out@ =~= old(out)@ + render_nat(m as int));
        }
    }
}

/// Render one cell value as its canonical decimal text.
pub fn render_cell(v: i64) -> (r: Vec<char>)
    ensures
        r@ == render_int(v),
{
    let mut out: Vec<char> = Vec::new();
    if v >= 0 {
        push_digits(v as u64, &mut out);
        proof {
            assert(out@ =~= render_int(v));
        }
    } else {
        out.push('-');
        let mag: u64 = (-(v as i128)) as u64;
        push_digits(mag, &mut out);
        proof {
            assert(out@ =~= render_int(v));
        }
    }
    out
}

/// The decimal numeral of a nonnegative value: at least one character, all
/// digits, and reading back to the value.
pub proof fn lemma_render_nat(n: int)
    requires
        n >= 0,
    ensures
        render_nat(n).len() >= 1,
        all_digits(render_nat(n)),
        digits_val(render_nat(n)) == n,
    decreases n,
{
    if n < 10 {
        assert(digits_val(render_nat(n)) == digits_val(seq![digit_char(n)].drop_last()) * 10
            + digit_val(digit_char(n)));
        assert(seq![digit_char(n)].drop_last() =~= Seq::<char>::empty());
    } else {
        lemma_render_nat(n / 10);
        let p = render_nat(n / 10);
        assert(render_nat(n).drop_last() =~= p);
        assert(render_nat(n).last() == digit_char(n % 10));
        assert(digits_val(render_nat(n)) == (n / 10) * 10 + n % 10);
        assert(forall|i: int|
            0 <= i < render_nat(n).len() ==> is_digit(#[trigger] render_nat(n)[i]));
    }
}

/// Rendered cell text is a well-formed cell, reads back to its value, and
/// contains neither separator character.
pub proof fn lemma_render_cell_value(v: i64)
    ensures
        cell_valid(render_int(v)),
        cell_int(render_int(v)) == v as int,
        render_int(v).len() >= 1,
        forall|i: int|
            0 <= i < render_int(v).len() ==> #[trigger] render_int(v)[i] != '_' && render_int(
                v,
            )[i] != '\n',
{
    if v >= 0 {
        lemma_render_nat(v as int);
        assert(is_digit(render_int(v)[0]));
        assert(render_int(v)[0] != '-');
    } else {
        lemma_render_nat(-(v as int));
        assert(render_int(v)[0] == '-');
        assert(render_int(v).skip(1) =~= render_nat(-(v as int)));
        assert(forall|i: int|
            1 <= i < render_int(v).len() ==> is_digit(#[trigger] render_int(v)[i]));
    }
}

} // verus!
