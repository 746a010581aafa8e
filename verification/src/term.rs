//! Parsing the terminal's cursor position report.
//!
//! A report is the byte sequence `ESC [ row ; col R` with both numbers in
//! decimal.  The rows and columns arrive one-based; the parsed result is
//! zero-based, saturating at zero.

use vstd::prelude::*;

verus! {

/// An ASCII decimal digit.
pub open spec fn is_digit(b: u8) -> bool {
    48 <= b <= 57
}

/// All bytes are decimal digits.
pub open spec fn all_digits(s: Seq<u8>) -> bool {
    forall|j: int| 0 <= j < s.len() ==> is_digit(#[trigger] s[j])
}

/// The decimal value of a digit string.
pub open spec fn dec_value(s: Seq<u8>) -> int
    decreases s.len(),
{
    if s.len() == 0 {
        0
    } else {
        dec_value(s.drop_last()) * 10 + (s.last() - 48)
    }
}

/// What a decimal number field parses to: the digits' value when the
/// field is non-empty, all digits (after an optional leading plus sign),
/// and small enough.
pub open spec fn parse_u16_spec(s: Seq<u8>) -> Option<u16> {
    let t = if s.len() > 0 && s[0] == 43 {
        s.drop_first()
    } else {
        s
    };
    if t.len() == 0 || !all_digits(t) || dec_value(t) > 65535 {
        None
    } else {
        Some(dec_value(t) as u16)
    }
}

/// One less, saturating at zero.
pub open spec fn sat_dec(x: u16) -> u16 {
    if x == 0 {
        0u16
    } else {
        (x - 1) as u16
    }
}

/// The position of the first `b` in `s`, or `s.len()` when absent.
pub open spec fn find_byte(s: Seq<u8>, b: u8) -> int
    decreases s.len(),
{
    if s.len() == 0 {
        0
    } else if s[0] == b {
        0
    } else {
        1 + find_byte(s.drop_first(), b)
    }
}

/// What a cursor report parses to: the zero-based `(column, row)` when
/// the bytes have the shape `ESC [ row ; col R`, nothing otherwise.
pub open spec fn cursor_report_spec(bytes: Seq<u8>) -> Option<(u16, u16)> {
    if bytes.len() >= 3 && bytes[0] == 27 && bytes[1] == 91 && bytes.last() == 82 {
        let mid = bytes.subrange(2, bytes.len() - 1);
        let semi = find_byte(mid, 59);
        if semi >= mid.len() {
            None
        } else {
            match (parse_u16_spec(mid.take(semi)), parse_u16_spec(mid.skip(semi + 1))) {
                (Some(row), Some(col)) => Some((sat_dec(col), sat_dec(row))),
                _ => None,
            }
        }
    } else {
        None
    }
}

proof fn lemma_dec_value_nonneg(s: Seq<u8>)
    requires
        all_digits(s),
    ensures
        dec_value(s) >= 0,
    decreases s.len(),
{
    if s.len() > 0 {
        assert(all_digits(s.drop_last())) by {
            assert forall|j: int| 0 <= j < s.drop_last().len() implies is_digit(
                #[trigger] s.drop_last()[j],
            ) by {
                assert(s.drop_last()[j] == s[j]);
            }
        }
        lemma_dec_value_nonneg(s.drop_last());
    }
}

proof fn lemma_dec_value_take_succ(s: Seq<u8>, j: int)
    requires
        0 <= j < s.len(),
    ensures
        dec_value(s.take(j + 1)) == dec_value(s.take(j)) * 10 + (s[j] - 48),
{
    assert(s.take(j + 1).drop_last() =~= s.take(j));
    assert(s.take(j + 1).last() == s[j]);
}

proof fn lemma_dec_value_grows(s: Seq<u8>, j: int)
    requires
        0 <= j <= s.len(),
        all_digits(s),
    ensures
        dec_value(s) >= dec_value(s.take(j)),
    decreases s.len() - j,
{
    if j == s.len() {
        assert(s.take(j) =~= s);
    } else {
        lemma_dec_value_take_succ(s, j);
        assert(all_digits(s.take(j))) by {
            assert forall|m: int| 0 <= m < s.take(j).len() implies is_digit(
                #[trigger] s.take(j)[m],
            ) by {
                assert(s.take(j)[m] == s[m]);
            }
        }
        lemma_dec_value_nonneg(s.take(j));
        lemma_dec_value_grows(s, j + 1);
    }
}

/// Parses a decimal number field, per [`parse_u16_spec`].
fn parse_u16_field(s: &Vec<u8>, lo: usize, hi: usize) -> (r: Option<u16>)
    requires
        lo <= hi <= s@.len(),
    ensures
        r == parse_u16_spec(s@.subrange(lo as int, hi as int)),
{
    let ghost field = s@.subrange(lo as int, hi as int);
    let mut start = lo;
    if lo < hi && s[lo] == 43 {
        start = lo + 1;
        proof {
            assert(field[0] == 43);
            assert(field.drop_first() =~= s@.subrange(start as int, hi as int));
        }
    } else {
        proof {
            if field.len() > 0 {
                assert(field[0] == s@[lo as int]);
            }
        }
    }
    let ghost t = s@.subrange(start as int, hi as int);
    if start == hi {
        proof {
            assert(t.len() == 0);
        }
        return None;
    }
    let mut val: u32 = 0;
    let mut j = start;
    proof {
        assert(t.take(0) =~= Seq::<u8>::empty());
    }
    while j < hi
        invariant
            lo <= start <= j <= hi <= s@.len(),
            t == s@.subrange(start as int, hi as int),
            t.len() == hi - start,
            t.len() > 0,
            ({
                let f = s@.subrange(lo as int, hi as int);
                (if f.len() > 0 && f[0] == 43 {
                    f.drop_first()
                } else {
                    f
                }) == t
            }),
            all_digits(t.take(j - start)),
            val == dec_value(t.take(j - start)),
            val <= 65535,
        decreases hi - j,
    {
        let b = s[j];
        proof {
            assert(t[j - start] == s@[j as int]);
        }
        if !(48 <= b && b <= 57) {
            proof {
                assert(!is_digit(t[j - start]));
            }
            return None;
        }
        proof {
            lemma_dec_value_take_succ(t, j - start);
            assert(t.take(j - start + 1).drop_last() =~= t.take(j - start));
            assert forall|m: int| 0 <= m < j - start + 1 implies is_digit(
                #[trigger] t.take(j - start + 1)[m],
            ) by {
                if m < j - start {
                    assert(t.take(j - start + 1)[m] == t.take(j - start)[m]);
                } else {
                    assert(t.take(j - start + 1)[m] == t[j - start]);
                }
            }
        }
        val = val * 10 + ((b - 48) as u32);
        j = j + 1;
        if val > 65535 {
            proof {
                assert(dec_value(t.take(j - start)) > 65535);
                if all_digits(t) {
                    lemma_dec_value_grows(t, j - start);
                }
            }
            return None;
        }
    }
    proof {
        assert(t.take(hi - start) =~= t);
    }
    Some(val as u16)
}

/// Parses a raw cursor position report into a zero-based
/// `(column, row)`, per [`cursor_report_spec`].
pub fn parse_cursor_report(bytes: &Vec<u8>) -> (r: Option<(u16, u16)>)
    ensures
        r == cursor_report_spec(bytes@),
{
    let n: usize = bytes.len();
    if n < 3 || bytes[0] != 27 || bytes[1] != 91 || bytes[n - 1] != 82 {
        return None;
    }
    let ghost mid = bytes@.subrange(2, n as int - 1);
    let mut semi = n - 1;
    let mut j: usize = 2;
    proof {
        assert(mid.skip(0) =~= mid);
        lemma_find_byte_nonneg(mid, 59);
    }
    loop
        invariant_except_break
            2 <= j <= n - 1,
            n == bytes@.len(),
            n >= 3,
            semi == n - 1,
            mid == bytes@.subrange(2, n as int - 1),
            find_byte(mid, 59) == (j - 2) + find_byte(mid.skip(j - 2), 59),
            find_byte(mid.skip(j - 2), 59) >= 0,
        ensures
            2 <= semi <= n - 1,
            n == bytes@.len(),
            mid == bytes@.subrange(2, n as int - 1),
            semi == n - 1 ==> find_byte(mid, 59) >= mid.len(),
            semi < n - 1 ==> find_byte(mid, 59) == semi - 2,
        decreases n - j,
    {
        if j >= n - 1 {
            proof {
                assert(mid.skip(j - 2) =~= Seq::<u8>::empty());
                assert(find_byte(mid, 59) >= mid.len());
            }
            break ;
        }
        proof {
            assert(mid.skip(j - 2)[0] == mid[j - 2]);
            assert(mid[j - 2] == bytes@[j as int]);
            assert(mid.skip(j - 2).drop_first() =~= mid.skip(j - 2 + 1));
            lemma_find_byte_nonneg(mid.skip(j - 2 + 1), 59);
        }
        if bytes[j] == 59 {
            semi = j;
            proof {
                assert(find_byte(mid.skip(j - 2), 59) == 0);
            }
            break ;
        }
        j = j + 1;
    }
    if semi == n - 1 {
        proof {
            assert(find_byte(mid, 59) >= mid.len());
        }
        return None;
    }
    proof {
        assert(find_byte(mid, 59) == semi - 2);
        assert(mid.take(semi - 2) =~= bytes@.subrange(2, semi as int));
        assert(mid.skip(semi - 2 + 1) =~= bytes@.subrange(semi as int + 1, n as int - 1));
    }
    let row = parse_u16_field(bytes, 2, semi);
    let col = parse_u16_field(bytes, semi + 1, n - 1);
    match (row, col) {
        (Some(r0), Some(c0)) => {
            let c1 = if c0 == 0 {
                0
            } else {
                c0 - 1
            };
            let r1 = if r0 == 0 {
                0
            } else {
                r0 - 1
            };
            Some((c1, r1))
        },
        _ => None,
    }
}

proof fn lemma_find_byte_nonneg(s: Seq<u8>, b: u8)
    ensures
        0 <= find_byte(s, b) <= s.len(),
    decreases s.len(),
{
    if s.len() > 0 && s[0] != b {
        lemma_find_byte_nonneg(s.drop_first(), b);
    }
}

} // verus!
