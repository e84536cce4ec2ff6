//! What the command line works out before anything is run.

use vstd::prelude::*;

verus! {

/// The value of a decimal digit.
pub open spec fn digit_value(c: char) -> nat {
    (c as u32 - '0' as u32) as nat
}

pub open spec fn is_digit(c: char) -> bool {
    '0' as u32 <= c as u32 <= '9' as u32
}

pub open spec fn all_digits(digits: Seq<char>) -> bool {
    forall|i: int| 0 <= i < digits.len() ==> is_digit(#[trigger] digits[i])
}

/// The number that decimal digits spell.
pub open spec fn number_of(digits: Seq<char>) -> nat
    decreases digits.len(),
{
    if digits.len() == 0 {
        0
    } else {
        number_of(digits.drop_last()) * 10 + digit_value(digits.last())
    }
}

/// The text without a plus sign at its head.
pub open spec fn unsigned_part(text: Seq<char>) -> Seq<char> {
    if text.len() > 0 && text[0] == '+' {
        text.drop_first()
    } else {
        text
    }
}

/// The number that the text spells: decimal digits, at least one, with or
/// without a plus sign before them, that spell a number which fits.
pub open spec fn parsed_usize(text: Seq<char>) -> Option<usize> {
    let digits = unsigned_part(text);
    if digits.len() > 0 && all_digits(digits) && number_of(digits) <= usize::MAX {
        Some(number_of(digits) as usize)
    } else {
        None
    }
}

/// More digits spell no smaller a number.
proof fn lemma_number_grows(digits: Seq<char>, k: int)
    requires
        0 <= k <= digits.len(),
    ensures
        number_of(digits.subrange(0, k)) <= number_of(digits),
    decreases digits.len() - k,
{
    if k < digits.len() {
        lemma_number_grows(digits, k + 1);
        let longer = digits.subrange(0, k + 1);
        assert(longer.drop_last() =~= digits.subrange(0, k));
        assert(number_of(longer) >= number_of(digits.subrange(0, k)) * 10) by {
            assert(number_of(longer) == number_of(longer.drop_last()) * 10 + digit_value(
                longer.last(),
            ));
        }
    } else {
        assert(digits.subrange(0, k) =~= digits);
    }
}

/// The number that the text spells in decimal digits, and `None` where it
/// spells none that fits.
pub fn parse_count(text: &str) -> (r: Option<usize>)
    ensures
        r == parsed_usize(text@),
{
    let n = text.unicode_len();
    let start: usize = if n > 0 && text.get_char(0) == '+' {
        1
    } else {
        0
    };
    let ghost digits = unsigned_part(text@);
    proof {
        assert(digits =~= text@.subrange(start as int, n as int));
    }
    if start == n {
        return None;
    }
    let mut acc: usize = 0;
    let mut i: usize = start;
    proof {
        assert(digits.subrange(0, 0) =~= Seq::<char>::empty());
    }
    while i < n
        invariant
            start <= i <= n,
            n == text@.len(),
            digits == text@.subrange(start as int, n as int),
            digits == unsigned_part(text@),
            all_digits(digits.subrange(0, i - start)),
            acc == number_of(digits.subrange(0, i - start)),
        decreases n - i,
    {
        let c = text.get_char(i);
        let ghost seen = digits.subrange(0, i - start);
        let ghost more = digits.subrange(0, i - start + 1);
        proof {
            assert(digits[i - start] == c);
            assert(more.drop_last() =~= seen);
            assert(more.last() == c);
        }
        if !('0' <= c && c <= '9') {
            proof {
                assert(!is_digit(digits[i - start]));
            }
            return None;
        }
        let d = (c as u32 - '0' as u32) as usize;
        if acc > (usize::MAX - d) / 10 {
            proof {
                assert(number_of(more) == acc * 10 + d);
                assert(acc * 10 + d > usize::MAX) by (nonlinear_arith)
                    requires
                        acc > (usize::MAX - d) / 10,
                        d < 10,
                ;
                lemma_number_grows(digits, i - start + 1);
            }
            return None;
        }
        proof {
            assert(acc * 10 + d <= usize::MAX) by (nonlinear_arith)
                requires
                    acc <= (usize::MAX - d) / 10,
                    d < 10,
            ;
            assert forall|k: int| 0 <= k < more.len() implies is_digit(#[trigger] more[k]) by {
                if k < seen.len() {
                    assert(more[k] == seen[k]);
                }
            }
        }
        acc = acc * 10 + d;
        i += 1;
    }
    proof {
        assert(digits.subrange(0, i - start) =~= digits);
    }
    Some(acc)
}

/// How many workers a local run gets at most: one less than the machine has
/// cores, and at least one.
pub open spec fn most_workers(cores: usize) -> usize {
    if cores >= 2 {
        (cores - 1) as usize
    } else {
        1
    }
}

/// How many workers the mode asks for, given what the mode spells as a
/// number if it spells one: one for `--blocking`, the most for `max`, and
/// else the number.
pub open spec fn workers_for(mode: Seq<char>, number: Option<usize>,
    cores: usize) -> Option<usize> {
    if mode == "--blocking"@ {
        Some(1usize)
    } else if mode == "max"@ {
        Some(most_workers(cores))
    } else {
        number
    }
}

/// How many workers a local run gets at most.
pub fn max_threads(cores: usize) -> (r: usize)
    ensures
        r == most_workers(cores),
{
    if cores >= 2 {
        cores - 1
    } else {
        1
    }
}

/// How many workers the mode asks for, given what the mode spells as a
/// number, if it spells one.
pub fn workers_of(mode: &str, number: Option<usize>, cores: usize) -> (r: Option<usize>)
    ensures
        r == workers_for(mode@, number, cores),
{
    let m = mode.to_owned();
    if m == "--blocking".to_owned() {
        Some(1)
    } else if m == "max".to_owned() {
        Some(max_threads(cores))
    } else {
        number
    }
}

/// How many workers a local run is to have: one for the mode `--blocking`,
/// one less than the machine has cores for `max`, and else the number that
/// the mode spells. `None` where the mode is none of these.
pub fn thread_count(mode: &str, cores: usize) -> (r: Option<usize>)
    ensures
        r == workers_for(mode@, parsed_usize(mode@), cores),
{
    let number = parse_count(mode);
    workers_of(mode, number, cores)
}

} // verus!
