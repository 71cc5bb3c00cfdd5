//! Instructions in a corrupted text: the products of the `mul(a,b)`
//! instructions that a pattern finds, and the parts of the text between
//! `do()` and `don't()`.

use crate::numbers::{i32_value, parse_i32};
use regex::Regex;
use vstd::prelude::*;

verus! {

/// The error with which `regex` refuses a pattern.
#[verifier::external_type_specification]
#[verifier::external_body]
pub struct ExRegexError(regex::Error);

/// The matches of a pattern in a text as `Regex::captures_iter` yields them,
/// one after the other without overlap, each with the text of its groups;
/// group 0 is the whole match, and a group that took no part in the match is
/// `None`. It says nothing of a pattern that `regex` refuses.
pub uninterp spec fn regex_captures(pattern: Seq<char>, haystack: Seq<char>) -> Seq<Seq<Option<Seq<char>>>>;

/// The groups of each match as sequences of characters.
pub open spec fn captures_view(found: &Vec<Vec<Option<String>>>) -> Seq<Seq<Option<Seq<char>>>> {
    Seq::new(
        found.len() as nat,
        |i: int|
            Seq::new(
                found[i].len() as nat,
                |j: int|
                    match found[i][j] {
                        Some(text) => Some(text@),
                        None => None,
                    },
            ),
    )
}

/// Compiles `pattern` with `Regex::new` and collects what
/// `Regex::captures_iter` yields on `haystack`. It fails where `regex`
/// refuses the pattern, of which nothing is claimed; the matches are those
/// that `regex` finds, which this library names and does not describe.
#[verifier::external_body]
fn find_captures(pattern: &str, haystack: &str) -> (r: Result<Vec<Vec<Option<String>>>, regex::Error>)
    ensures
        r matches Ok(found) ==> captures_view(&found) == regex_captures(pattern@, haystack@),
{
    let re = Regex::new(pattern)?;
    Ok(
        re.captures_iter(haystack).map(
            |caps| caps.iter().map(|group| group.map(|m| m.as_str().to_string())).collect(),
        ).collect(),
    )
}

/// Why the instructions of a text have no sum.
#[derive(Clone, Copy, Debug, PartialEq, Eq, Structural)]
pub enum InstructionError {
    /// The pattern was refused.
    BadPattern,
    /// A match lacks a group that holds a number.
    MissingGroup,
    /// A group holds no number that fits in an `i32`.
    NotANumber,
    /// A product or the sum does not fit in an `i32`.
    Overflow,
}

/// The pattern of a multiplication: `mul(`, digits, a comma, digits, `)`.
pub open spec fn mul_pattern() -> Seq<char> {
    "mul\\((\\d+),(\\d+)\\)"@
}

/// The pattern of an enabled part: what stands between `do()` and the next `don't()`.
pub open spec fn enabled_pattern() -> Seq<char> {
    "(?s)do\\(\\)(.*?)don't\\(\\)"@
}

/// Whether `v` fits in an `i32`.
pub open spec fn fits_i32(v: int) -> bool {
    i32::MIN <= v <= i32::MAX
}

/// The product of the numbers in groups 1 and 2 of a match.
pub open spec fn product_of(groups: Seq<Option<Seq<char>>>) -> Result<int, InstructionError> {
    if groups.len() <= 2 || groups[1] is None || groups[2] is None {
        Err(InstructionError::MissingGroup)
    } else if i32_value(groups[1]->0) is None || i32_value(groups[2]->0) is None {
        Err(InstructionError::NotANumber)
    } else if !fits_i32(i32_value(groups[1]->0)->0 * i32_value(groups[2]->0)->0) {
        Err(InstructionError::Overflow)
    } else {
        Ok(i32_value(groups[1]->0)->0 * i32_value(groups[2]->0)->0)
    }
}

/// The sum of the products of the first `n` matches, or the first error on
/// the way: that of a product, or `Overflow` where the sum so far does not
/// fit in an `i32`.
pub open spec fn products_sum(matches: Seq<Seq<Option<Seq<char>>>>, n: int) -> Result<
    int,
    InstructionError,
>
    decreases n,
{
    if n <= 0 {
        Ok(0)
    } else {
        match products_sum(matches, n - 1) {
            Err(e) => Err(e),
            Ok(sum) => match product_of(matches[n - 1]) {
                Err(e) => Err(e),
                Ok(product) => if fits_i32(sum + product) {
                    Ok(sum + product)
                } else {
                    Err(InstructionError::Overflow)
                },
            },
        }
    }
}

/// The product of the numbers in groups 1 and 2 of a match.
fn product(groups: &Vec<Option<String>>) -> (r: Result<i32, InstructionError>)
    ensures
        match r {
            Ok(p) => product_of(captures_view_of(groups)) == Ok::<int, InstructionError>(p as int),
            Err(e) => product_of(captures_view_of(groups)) == Err::<int, InstructionError>(e),
        },
{
    if groups.len() <= 2 {
        return Err(InstructionError::MissingGroup);
    }
    let first = match &groups[1] {
        Some(text) => parse_i32(text.as_str()),
        None => {
            return Err(InstructionError::MissingGroup);
        },
    };
    let second = match &groups[2] {
        Some(text) => parse_i32(text.as_str()),
        None => {
            return Err(InstructionError::MissingGroup);
        },
    };
    if first.is_none() || second.is_none() {
        return Err(InstructionError::NotANumber);
    }
    let a = first.unwrap() as i64;
    let b = second.unwrap() as i64;
    assert(-0x8000_0000 * 0x8000_0000 <= a * b <= 0x8000_0000 * 0x8000_0000) by (nonlinear_arith)
        requires
            -0x8000_0000 <= a <= 0x7fff_ffff,
            -0x8000_0000 <= b <= 0x7fff_ffff,
    ;
    let p = a * b;
    if p < -0x8000_0000 || p > 0x7fff_ffff {
        Err(InstructionError::Overflow)
    } else {
        Ok(p as i32)
    }
}

/// The groups of one match as sequences of characters.
pub open spec fn captures_view_of(groups: &Vec<Option<String>>) -> Seq<Option<Seq<char>>> {
    Seq::new(
        groups.len() as nat,
        |j: int|
            match groups[j] {
                Some(text) => Some(text@),
                None => None,
            },
    )
}

/// The sum of the products of the numbers in groups 1 and 2 of each match,
/// or the first error on the way.
pub fn sum_of_products(matches: &Vec<Vec<Option<String>>>) -> (r: Result<i32, InstructionError>)
    ensures
        match r {
            Ok(sum) => products_sum(captures_view(matches), matches.len() as int) == Ok::<
                int,
                InstructionError,
            >(sum as int),
            Err(e) => products_sum(captures_view(matches), matches.len() as int) == Err::<
                int,
                InstructionError,
            >(e),
        },
{
    let mut total: i32 = 0;
    let mut i: usize = 0;
    while i < matches.len()
        invariant
            i <= matches.len(),
            products_sum(captures_view(matches), i as int) == Ok::<int, InstructionError>(total as int),
        decreases matches.len() - i,
    {
        assert(captures_view(matches)[i as int] == captures_view_of(&matches[i as int]));
        let p = match product(&matches[i]) {
            Ok(p) => p,
            Err(e) => {
                proof {
                    assert(products_sum(captures_view(matches), i as int + 1) == Err::<
                        int,
                        InstructionError,
                    >(e));
                    lemma_error_stays(captures_view(matches), i as int + 1, matches.len() as int);
                }
                return Err(e);
            },
        };
        let sum = total as i64 + p as i64;
        if sum < -0x8000_0000 || sum > 0x7fff_ffff {
            proof {
                assert(products_sum(captures_view(matches), i as int + 1) == Err::<int, InstructionError>(
                    InstructionError::Overflow,
                ));
                lemma_error_stays(captures_view(matches), i as int + 1, matches.len() as int);
            }
            return Err(InstructionError::Overflow);
        }
        total = sum as i32;
        i += 1;
    }
    Ok(total)
}

/// Once the sum has failed, it fails in the same way over more matches.
pub proof fn lemma_error_stays(matches: Seq<Seq<Option<Seq<char>>>>, n: int, more: int)
    requires
        products_sum(matches, n) is Err,
        n <= more,
    ensures
        products_sum(matches, more) == products_sum(matches, n),
    decreases more - n,
{
    if n < more {
        lemma_error_stays(matches, n, more - 1);
    }
}

/// The sum of the products of all multiplications that the pattern finds in
/// `contents`.
pub open spec fn muls_sum(contents: Seq<char>) -> Result<int, InstructionError> {
    products_sum(
        regex_captures(mul_pattern(), contents),
        regex_captures(mul_pattern(), contents).len() as int,
    )
}

/// The sum of the products of all `mul(a,b)` instructions in `contents`; or
/// `BadPattern`, should `regex` refuse the pattern of a multiplication.
pub fn extract_sum_of_muls(contents: &str) -> (r: Result<i32, InstructionError>)
    ensures
        match r {
            Ok(sum) => muls_sum(contents@) == Ok::<int, InstructionError>(sum as int),
            Err(e) => e == InstructionError::BadPattern || muls_sum(contents@) == Err::<
                int,
                InstructionError,
            >(e),
        },
{
    match find_captures("mul\\((\\d+),(\\d+)\\)", contents) {
        Ok(found) => sum_of_products(&found),
        Err(_) => Err(InstructionError::BadPattern),
    }
}

/// The sum of the products of all `mul(a,b)` instructions in `contents`; or
/// `BadPattern`, should `regex` refuse the pattern of a multiplication.
pub fn get_all_muls(contents: &str) -> (r: Result<i32, InstructionError>)
    ensures
        match r {
            Ok(sum) => muls_sum(contents@) == Ok::<int, InstructionError>(sum as int),
            Err(e) => e == InstructionError::BadPattern || muls_sum(contents@) == Err::<
                int,
                InstructionError,
            >(e),
        },
{
    extract_sum_of_muls(contents)
}

/// Group 1 of each of the first `n` matches, one after the other with a
/// space between each two; `None` where a match lacks the group.
pub open spec fn joined_groups(matches: Seq<Seq<Option<Seq<char>>>>, n: int) -> Option<Seq<char>>
    decreases n,
{
    if n <= 0 {
        Some(Seq::empty())
    } else if matches[n - 1].len() <= 1 || matches[n - 1][1] is None {
        None
    } else {
        match joined_groups(matches, n - 1) {
            None => None,
            Some(before) => Some(
                if n == 1 {
                    matches[n - 1][1]->0
                } else {
                    before + seq![' '] + matches[n - 1][1]->0
                },
            ),
        }
    }
}

/// Group 1 of each match, one after the other with a space between each
/// two; `MissingGroup` where a match lacks the group.
pub fn join_groups(matches: &Vec<Vec<Option<String>>>) -> (r: Result<String, InstructionError>)
    ensures
        match r {
            Ok(text) => joined_groups(captures_view(matches), matches.len() as int) == Some(text@),
            Err(e) => e == InstructionError::MissingGroup && joined_groups(
                captures_view(matches),
                matches.len() as int,
            ) is None,
        },
{
    let mut text = String::new();
    let mut i: usize = 0;
    while i < matches.len()
        invariant
            i <= matches.len(),
            joined_groups(captures_view(matches), i as int) == Some(text@),
        decreases matches.len() - i,
    {
        let groups = &matches[i];
        assert(captures_view(matches)[i as int] == captures_view_of(groups));
        if groups.len() <= 1 {
            proof {
                lemma_missing_stays(captures_view(matches), i as int + 1, matches.len() as int);
            }
            return Err(InstructionError::MissingGroup);
        }
        match &groups[1] {
            Some(part) => {
                if i > 0 {
                    proof {
                        reveal_strlit(" ");
                    }
                    text.append(" ");
                    assert(" "@ =~= seq![' ']);
                }
                text.append(part.as_str());
                proof {
                    if i == 0 {
                        assert(text@ =~= part@);
                    }
                }
            },
            None => {
                proof {
                    lemma_missing_stays(captures_view(matches), i as int + 1, matches.len() as int);
                }
                return Err(InstructionError::MissingGroup);
            },
        }
        i += 1;
    }
    Ok(text)
}

/// Once a group is missing, it is missing over more matches.
pub proof fn lemma_missing_stays(matches: Seq<Seq<Option<Seq<char>>>>, n: int, more: int)
    requires
        joined_groups(matches, n) is None,
        n <= more,
    ensures
        joined_groups(matches, more) is None,
    decreases more - n,
{
    if n < more {
        lemma_missing_stays(matches, n, more - 1);
    }
}

/// The enabled parts of `contents`, with a space between each two.
pub open spec fn enabled_text(contents: Seq<char>) -> Result<Seq<char>, InstructionError> {
    match joined_groups(
        regex_captures(enabled_pattern(), contents),
        regex_captures(enabled_pattern(), contents).len() as int,
    ) {
        Some(text) => Ok(text),
        None => Err(InstructionError::MissingGroup),
    }
}

/// The sum of the products of the `mul(a,b)` instructions in the enabled
/// parts of `contents`: in what stands between a `do()` and the next
/// `don't()`; or `BadPattern`, should `regex` refuse one of the two patterns.
pub fn get_all_muls_with_enablers(contents: &str) -> (r: Result<i32, InstructionError>)
    ensures
        match r {
            Ok(sum) => enabled_text(contents@) matches Ok(parts) && muls_sum(parts) == Ok::<
                int,
                InstructionError,
            >(sum as int),
            Err(e) => e == InstructionError::BadPattern || enabled_text(contents@) == Err::<
                Seq<char>,
                InstructionError,
            >(e) || (enabled_text(contents@) matches Ok(parts) && muls_sum(parts) == Err::<
                int,
                InstructionError,
            >(e)),
        },
{
    let found = match find_captures("(?s)do\\(\\)(.*?)don't\\(\\)", contents) {
        Ok(found) => found,
        Err(_) => {
            return Err(InstructionError::BadPattern);
        },
    };
    match join_groups(&found) {
        Ok(parts) => extract_sum_of_muls(parts.as_str()),
        Err(e) => Err(e),
    }
}

} // verus!
