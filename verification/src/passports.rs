//! Passport-record validation.
//!
//! Raw text holds `key:value` pairs separated by spaces and newlines, with
//! a blank line between records. A scanner walks the text character by
//! character, validates each pair as it completes, and counts the records
//! in which all seven required fields were seen with valid values.

use crate::parse::{is_digit, spec_to_int, to_int};
use vstd::prelude::*;

verus! {

/// A hexadecimal digit, in either case.
pub open spec fn is_hex_digit(c: char) -> bool {
    is_digit(c) || (97 <= c as u32 && c as u32 <= 102) || (65 <= c as u32 && c as u32 <= 70)
}

/// Whether `value` is acceptable for the field named `key`: a birth,
/// issue or expiration year in its range, a height in centimetres or
/// inches in its range, a `#`-prefixed six-digit hex color, a known eye
/// color, or a nine-character passport id. Unknown keys are invalid; a
/// height shorter than its two-letter unit is invalid.
pub open spec fn spec_valid_field(key: Seq<char>, value: Seq<char>) -> bool {
    if key == seq!['b', 'y', 'r'] {
        1920 <= spec_to_int(value) && spec_to_int(value) <= 2002
    } else if key == seq!['i', 'y', 'r'] {
        2010 <= spec_to_int(value) && spec_to_int(value) <= 2020
    } else if key == seq!['e', 'y', 'r'] {
        2020 <= spec_to_int(value) && spec_to_int(value) <= 2030
    } else if key == seq!['h', 'g', 't'] {
        value.len() >= 2 && {
            let split = value.len() - 2;
            let measurement = spec_to_int(value.take(split as int));
            if value.skip(split as int) == seq!['c', 'm'] {
                150 <= measurement && measurement <= 193
            } else if value.skip(split as int) == seq!['i', 'n'] {
                59 <= measurement && measurement <= 76
            } else {
                false
            }
        }
    } else if key == seq!['h', 'c', 'l'] {
        value.len() == 7 && value[0] == '#' && forall|i: int|
            1 <= i < 7 ==> is_hex_digit(#[trigger] value[i])
    } else if key == seq!['e', 'c', 'l'] {
        ||| value == seq!['a', 'm', 'b']
        ||| value == seq!['b', 'l', 'u']
        ||| value == seq!['b', 'r', 'n']
        ||| value == seq!['g', 'r', 'y']
        ||| value == seq!['g', 'r', 'n']
        ||| value == seq!['h', 'z', 'l']
        ||| value == seq!['o', 't', 'h']
    } else if key == seq!['p', 'i', 'd'] {
        value.len() == 9
    } else {
        false
    }
}

/// Whether a list of characters is exactly the three given ones.
fn chars_eq3(s: &Vec<char>, a: char, b: char, c: char) -> (r: bool)
    ensures
        r == (s@ == seq![a, b, c]),
{
    let r = s.len() == 3 && s[0] == a && s[1] == b && s[2] == c;
    proof {
        if r {
            assert(s@ =~= seq![a, b, c]);
        } else {
            assert(seq![a, b, c].len() == 3);
        }
    }
    r
}

/// Copies a range of characters.
fn chars_range(s: &Vec<char>, from: usize, to: usize) -> (r: Vec<char>)
    requires
        from <= to <= s@.len(),
    ensures
        r@ == s@.subrange(from as int, to as int),
{
    let mut r: Vec<char> = Vec::new();
    let mut i: usize = from;
    proof {
        assert(r@ =~= s@.subrange(from as int, from as int));
    }
    while i < to
        invariant
            from <= i <= to <= s@.len(),
            r@ == s@.subrange(from as int, i as int),
        decreases to - i,
    {
        r.push(s[i]);
        proof {
            assert(s@.subrange(from as int, i + 1) =~= s@.subrange(from as int, i as int).push(
                s@[i as int],
            ));
        }
        i = i + 1;
    }
    r
}

/// Decides whether `value` is acceptable for the field named `key`.
pub fn is_valid_passport_value(key: &Vec<char>, value: &Vec<char>) -> (r: bool)
    ensures
        r == spec_valid_field(key@, value@),
{
    if chars_eq3(key, 'b', 'y', 'r') {
        let v = to_int(value);
        v >= 1920 && v <= 2002
    } else if chars_eq3(key, 'i', 'y', 'r') {
        let v = to_int(value);
        v >= 2010 && v <= 2020
    } else if chars_eq3(key, 'e', 'y', 'r') {
        let v = to_int(value);
        v >= 2020 && v <= 2030
    } else if chars_eq3(key, 'h', 'g', 't') {
        if value.len() < 2 {
            return false;
        }
        let split = value.len() - 2;
        let unit0 = value[split];
        let unit1 = value[split + 1];
        let number = chars_range(value, 0, split);
        proof {
            assert(value@.take(split as int) =~= value@.subrange(0, split as int));
            assert(value@.skip(split as int) =~= seq![value@[split as int], value@[split + 1]]);
        }
        if unit0 == 'c' && unit1 == 'm' {
            proof {
                assert(value@.skip(split as int) =~= seq!['c', 'm']);
            }
            let measurement = to_int(&number);
            measurement >= 150 && measurement <= 193
        } else if unit0 == 'i' && unit1 == 'n' {
            proof {
                assert(value@.skip(split as int) =~= seq!['i', 'n']);
            }
            let measurement = to_int(&number);
            measurement >= 59 && measurement <= 76
        } else {
            proof {
                assert(value@.skip(split as int) != seq!['c', 'm']);
                assert(value@.skip(split as int) != seq!['i', 'n']);
            }
            false
        }
    } else if chars_eq3(key, 'h', 'c', 'l') {
        if value.len() != 7 {
            return false;
        }
        if value[0] != '#' {
            return false;
        }
        let mut i: usize = 1;
        while i < 7
            invariant
                1 <= i <= 7,
                key@ == seq!['h', 'c', 'l'],
                value@.len() == 7,
                value@[0] == '#',
                forall|j: int| 1 <= j < i ==> is_hex_digit(#[trigger] value@[j]),
            decreases 7 - i,
        {
            let u = value[i] as u32;
            let ok = (u >= 48 && u <= 57) || (u >= 97 && u <= 102) || (u >= 65 && u <= 70);
            if !ok {
                proof {
                    assert(!is_hex_digit(value@[i as int]));
                }
                return false;
            }
            i = i + 1;
        }
        true
    } else if chars_eq3(key, 'e', 'c', 'l') {
        chars_eq3(value, 'a', 'm', 'b') || chars_eq3(value, 'b', 'l', 'u') || chars_eq3(
            value,
            'b',
            'r',
            'n',
        ) || chars_eq3(value, 'g', 'r', 'y') || chars_eq3(value, 'g', 'r', 'n') || chars_eq3(
            value,
            'h',
            'z',
            'l',
        ) || chars_eq3(value, 'o', 't', 'h')
    } else if chars_eq3(key, 'p', 'i', 'd') {
        value.len() == 9
    } else {
        false
    }
}

/// The scanner's state: whether it is reading a value, the pair built so
/// far, which required fields are still unaccounted for in the current
/// record, and how many records have been counted valid.
pub ghost struct ScanState {
    pub reading_values: bool,
    pub key: Seq<char>,
    pub value: Seq<char>,
    pub byr: bool,
    pub iyr: bool,
    pub eyr: bool,
    pub hgt: bool,
    pub hcl: bool,
    pub ecl: bool,
    pub pid: bool,
    pub count: int,
}

/// The scanner's starting state: reading keys, everything unaccounted.
pub open spec fn scan_init() -> ScanState {
    ScanState {
        reading_values: false,
        key: Seq::empty(),
        value: Seq::empty(),
        byr: true,
        iyr: true,
        eyr: true,
        hgt: true,
        hcl: true,
        ecl: true,
        pid: true,
        count: 0,
    }
}

/// Marks the field named by the finished pair accounted for, where its
/// value is acceptable.
pub open spec fn scan_settle(st: ScanState) -> ScanState {
    if spec_valid_field(st.key, st.value) {
        ScanState {
            byr: st.byr && st.key != seq!['b', 'y', 'r'],
            iyr: st.iyr && st.key != seq!['i', 'y', 'r'],
            eyr: st.eyr && st.key != seq!['e', 'y', 'r'],
            hgt: st.hgt && st.key != seq!['h', 'g', 't'],
            hcl: st.hcl && st.key != seq!['h', 'c', 'l'],
            ecl: st.ecl && st.key != seq!['e', 'c', 'l'],
            pid: st.pid && st.key != seq!['p', 'i', 'd'],
            ..st
        }
    } else {
        st
    }
}

/// One scanner step: while reading keys, a newline closes a record (a
/// record with every field accounted for counts), a colon switches to the
/// value, and any other character extends the key; while reading values, a
/// space or newline settles the pair and returns to keys, and any other
/// character extends the value.
pub open spec fn scan_step(st: ScanState, c: char) -> ScanState {
    if !st.reading_values {
        if c == '\n' {
            let complete = !st.byr && !st.iyr && !st.eyr && !st.hgt && !st.hcl && !st.ecl
                && !st.pid;
            ScanState {
                count: st.count + if complete {
                    1int
                } else {
                    0int
                },
                byr: true,
                iyr: true,
                eyr: true,
                hgt: true,
                hcl: true,
                ecl: true,
                pid: true,
                ..st
            }
        } else if c == ':' {
            ScanState { reading_values: true, ..st }
        } else {
            ScanState { key: st.key.push(c), ..st }
        }
    } else {
        if c == ' ' || c == '\n' {
            let settled = scan_settle(st);
            ScanState {
                reading_values: false,
                key: Seq::empty(),
                value: Seq::empty(),
                ..settled
            }
        } else {
            ScanState { value: st.value.push(c), ..st }
        }
    }
}

/// The scanner's state after the first `i` characters.
pub open spec fn scan(chars: Seq<char>, i: nat) -> ScanState
    decreases i,
{
    if i == 0 {
        scan_init()
    } else {
        scan_step(scan(chars, (i - 1) as nat), chars[i - 1])
    }
}

/// Counts the records of the raw text in which all seven required fields
/// appear with acceptable values. A record counts only when a blank line
/// (or a final newline directly after one) closes it.
pub fn read_passports(raw_passports: &Vec<char>) -> (num_valid: u32)
    requires
        raw_passports@.len() <= u32::MAX,
    ensures
        num_valid == scan(raw_passports@, raw_passports@.len() as nat).count,
{
    let ghost chars = raw_passports@;
    let mut num_valid_passports: u32 = 0;
    let mut reading_values = false;
    let mut byr = true;
    let mut iyr = true;
    let mut eyr = true;
    let mut hgt = true;
    let mut hcl = true;
    let mut ecl = true;
    let mut pid = true;
    let mut curr_key: Vec<char> = Vec::new();
    let mut curr_value: Vec<char> = Vec::new();
    let mut i: usize = 0;
    while i < raw_passports.len()
        invariant
            chars == raw_passports@,
            i <= chars.len() <= u32::MAX,
            ({
                let st = scan(chars, i as nat);
                &&& st.reading_values == reading_values
                &&& st.key == curr_key@
                &&& st.value == curr_value@
                &&& st.byr == byr
                &&& st.iyr == iyr
                &&& st.eyr == eyr
                &&& st.hgt == hgt
                &&& st.hcl == hcl
                &&& st.ecl == ecl
                &&& st.pid == pid
                &&& st.count == num_valid_passports
                &&& st.count <= i
            }),
        decreases chars.len() - i,
    {
        let c = raw_passports[i];
        if !reading_values {
            if c == '\n' {
                if !byr && !iyr && !eyr && !hgt && !hcl && !ecl && !pid {
                    num_valid_passports = num_valid_passports + 1;
                }
                byr = true;
                iyr = true;
                eyr = true;
                hgt = true;
                hcl = true;
                ecl = true;
                pid = true;
            } else if c == ':' {
                reading_values = true;
            } else {
                curr_key.push(c);
            }
        } else {
            if c == ' ' || c == '\n' {
                if is_valid_passport_value(&curr_key, &curr_value) {
                    if chars_eq3(&curr_key, 'b', 'y', 'r') {
                        byr = false;
                    } else if chars_eq3(&curr_key, 'i', 'y', 'r') {
                        iyr = false;
                    } else if chars_eq3(&curr_key, 'e', 'y', 'r') {
                        eyr = false;
                    } else if chars_eq3(&curr_key, 'h', 'g', 't') {
                        hgt = false;
                    } else if chars_eq3(&curr_key, 'h', 'c', 'l') {
                        hcl = false;
                    } else if chars_eq3(&curr_key, 'e', 'c', 'l') {
                        ecl = false;
                    } else if chars_eq3(&curr_key, 'p', 'i', 'd') {
                        pid = false;
                    }
                }
                reading_values = false;
                curr_key = Vec::new();
                curr_value = Vec::new();
            } else {
                curr_value.push(c);
            }
        }
        proof {
            assert(scan(chars, (i + 1) as nat) == scan_step(scan(chars, i as nat), chars[i as int]));
        }
        i = i + 1;
    }
    num_valid_passports
}

} // verus!
