//! Shared text utilities: splitting raw input into lines and reading
//! unsigned decimal numbers, both specified over sequences of characters.

use vstd::prelude::*;

verus! {

/// A decimal digit.
pub open spec fn is_digit(c: char) -> bool {
    48 <= c as u32 && c as u32 <= 57
}

/// The value of one decimal digit.
pub open spec fn digit_val(c: char) -> int {
    c as u32 - 48
}

/// Every character of `s` is a decimal digit.
pub open spec fn all_digits(s: Seq<char>) -> bool {
    forall|i: int| 0 <= i < s.len() ==> is_digit(s[i])
}

/// The number denoted by a sequence of decimal digits, most significant
/// first.
pub open spec fn digits_value(s: Seq<char>) -> int
    decreases s.len(),
{
    if s.len() == 0 {
        0
    } else {
        digits_value(s.drop_last()) * 10 + digit_val(s.last())
    }
}

/// The digit part of a number written with an optional leading plus sign.
pub open spec fn unsigned_body(s: Seq<char>) -> Seq<char> {
    if s.len() > 0 && s[0] == '+' {
        s.drop_first()
    } else {
        s
    }
}

/// Whether `s` is a number that 32-bit unsigned parsing accepts: an
/// optional `+`, then at least one digit, and a value that fits.
pub open spec fn parses_as_u32(s: Seq<char>) -> bool {
    let body = unsigned_body(s);
    body.len() > 0 && all_digits(body) && digits_value(body) <= u32::MAX
}

/// The number `s` denotes, or 0 where `s` is not a well-formed 32-bit
/// unsigned number.
pub open spec fn spec_to_int(s: Seq<char>) -> u32 {
    if parses_as_u32(s) {
        digits_value(unsigned_body(s)) as u32
    } else {
        0
    }
}

/// A digit string is worth at least nothing.
pub proof fn lemma_digits_value_nonneg(s: Seq<char>)
    requires
        all_digits(s),
    ensures
        digits_value(s) >= 0,
    decreases s.len(),
{
    if s.len() > 0 {
        assert(all_digits(s.drop_last()));
        lemma_digits_value_nonneg(s.drop_last());
    }
}

/// Extending a digit string to the right never shrinks its value.
pub proof fn lemma_digits_value_prefix(s: Seq<char>, n: int)
    requires
        all_digits(s),
        0 <= n <= s.len(),
    ensures
        digits_value(s.take(n)) <= digits_value(s),
    decreases s.len() - n,
{
    if n < s.len() {
        let t = s.take(n + 1);
        assert(t.drop_last() =~= s.take(n));
        assert(all_digits(s.take(n)));
        lemma_digits_value_nonneg(s.take(n));
        assert(digits_value(s.take(n)) * 10 >= digits_value(s.take(n))) by (nonlinear_arith)
            requires digits_value(s.take(n)) >= 0;
        assert(digits_value(t) >= digits_value(s.take(n)));
        lemma_digits_value_prefix(s, n + 1);
        assert(s.take(s.len() as int) =~= s);
    } else {
        assert(s.take(n) =~= s);
    }
}

/// Splits raw text into lines at each newline character, as splitting on a
/// single separator does: `n + 1` pieces for `n` newlines, empty pieces
/// kept.
pub open spec fn spec_split_lines(s: Seq<char>) -> Seq<Seq<char>>
    decreases s.len(),
{
    if s.len() == 0 {
        seq![Seq::<char>::empty()]
    } else if s.last() == '\n' {
        spec_split_lines(s.drop_last()).push(Seq::<char>::empty())
    } else {
        let rest = spec_split_lines(s.drop_last());
        rest.update(rest.len() - 1, rest.last().push(s.last()))
    }
}

/// Splitting always yields at least one piece.
pub proof fn lemma_split_lines_len(s: Seq<char>)
    ensures
        spec_split_lines(s).len() >= 1,
    decreases s.len(),
{
    if s.len() > 0 {
        lemma_split_lines_len(s.drop_last());
    }
}

/// Splits raw input into its lines.
pub fn split_lines(raw: &Vec<char>) -> (lines: Vec<Vec<char>>)
    ensures
        lines.deep_view() == spec_split_lines(raw@),
{
    let mut lines: Vec<Vec<char>> = Vec::new();
    lines.push(Vec::new());
    let mut i: usize = 0;
    proof {
        assert(raw@.take(0) =~= Seq::<char>::empty());
        assert(lines.deep_view() =~~= spec_split_lines(raw@.take(0)));
    }
    while i < raw.len()
        invariant
            i <= raw@.len(),
            lines.deep_view() == spec_split_lines(raw@.take(i as int)),
            lines.len() >= 1,
        decreases raw@.len() - i,
    {
        let ghost prev = lines.deep_view();
        let c = raw[i];
        proof {
            assert(raw@.take(i + 1).drop_last() =~= raw@.take(i as int));
            lemma_split_lines_len(raw@.take(i as int));
        }
        if c == '\n' {
            lines.push(Vec::new());
            proof {
                assert(lines.deep_view() =~~= prev.push(Seq::<char>::empty()));
            }
        } else {
            let last = lines.len() - 1;
            let mut row = lines.remove(last);
            row.push(c);
            lines.push(row);
            proof {
                assert(lines.deep_view() =~~= prev.update(
                    prev.len() - 1,
                    prev.last().push(c),
                ));
            }
        }
        i = i + 1;
    }
    proof {
        assert(raw@.take(raw@.len() as int) =~= raw@);
    }
    lines
}

/// Reads a 32-bit unsigned decimal number, giving 0 for anything that is
/// not one.
pub fn to_int(value: &Vec<char>) -> (r: u32)
    ensures
        r == spec_to_int(value@),
{
    let mut start: usize = 0;
    if value.len() > 0 && value[0] == '+' {
        start = 1;
    }
    if start >= value.len() {
        return 0;
    }
    let ghost body = unsigned_body(value@);
    proof {
        assert(body =~= value@.subrange(start as int, value@.len() as int));
    }
    let mut acc: u32 = 0;
    let mut i: usize = start;
    while i < value.len()
        invariant
            start <= i <= value@.len(),
            body == unsigned_body(value@),
            body == value@.subrange(start as int, value@.len() as int),
            all_digits(body.take(i - start)),
            acc == digits_value(body.take(i - start)),
        decreases value@.len() - i,
    {
        let c = value[i];
        let u = c as u32;
        if u < 48 || u > 57 {
            proof {
                assert(body[i - start] == c);
                assert(!is_digit(body[i - start]));
            }
            return 0;
        }
        let d = u - 48;
        proof {
            assert(body.take(i + 1 - start).drop_last() =~= body.take(i - start));
            assert(body.take(i + 1 - start).last() == c);
        }
        if acc > (u32::MAX - d) / 10 {
            proof {
                assert(digits_value(body.take(i + 1 - start)) == acc * 10 + d);
                assert(acc * 10 + d > u32::MAX) by (nonlinear_arith)
                    requires
                        acc > (u32::MAX - d) / 10,
                        d <= 9;
                if parses_as_u32(value@) {
                    lemma_digits_value_prefix(body, i + 1 - start);
                }
            }
            return 0;
        }
        acc = acc * 10 + d;
        i = i + 1;
    }
    proof {
        assert(body.take(value@.len() - start) =~= body);
    }
    acc
}

} // verus!
