//! Corrupted memory: the multiplications that are still whole, and the
//! switches that turn them on and off.

use crate::text::{number_at, parse_byte, parse_number, starts_with, tag};
use vstd::pervasive::unreached;
use vstd::prelude::*;
use vstd::slice::slice_subrange;
use vstd::string::*;

verus! {

/// One multiplication.
#[derive(Clone, Copy, Debug, PartialEq, Eq, Structural)]
pub struct Mul {
    pub x: usize,
    pub y: usize,
}

/// The bytes of `mul(`.
pub open spec fn mul_word() -> Seq<u8> {
    seq![109u8, 117u8, 108u8, 40u8]
}

/// The bytes of `do()`.
pub open spec fn do_word() -> Seq<u8> {
    seq![100u8, 111u8, 40u8, 41u8]
}

/// The bytes of `don't()`.
pub open spec fn dont_word() -> Seq<u8> {
    seq![100u8, 111u8, 110u8, 39u8, 116u8, 40u8, 41u8]
}

/// The multiplication at the start of `s` and how many bytes spell it:
/// `mul(`, a number, a comma, a number and `)`.
pub open spec fn mul_at(s: Seq<u8>) -> Option<(Mul, int)> {
    if !starts_with(s, mul_word()) {
        None
    } else {
        match number_at(s.skip(4)) {
            None => None,
            Some((x, k1)) => if !(4 + k1 < s.len() && s[4 + k1] == 44) {
                None
            } else {
                match number_at(s.skip(5 + k1)) {
                    None => None,
                    Some((y, k2)) => if 5 + k1 + k2 < s.len() && s[5 + k1 + k2] == 41 {
                        Some((Mul { x, y }, 6 + k1 + k2))
                    } else {
                        None
                    },
                }
            },
        }
    }
}

/// Reads a multiplication at the start of `input`.  Gives what follows it
/// and the multiplication.
pub fn parse_mul(input: &[u8]) -> (r: Option<(&[u8], Mul)>)
    ensures
        match mul_at(input@) {
            Some((mul, used)) => {
                &&& 8 <= used <= input@.len()
                &&& r matches Some((rest, found)) && found == mul && rest@ == input@.skip(used)
            },
            None => r is None,
        },
{
    let word: [u8; 4] = [109, 117, 108, 40];
    assert(word@ =~= mul_word());
    let (input1, _) = match tag(input, word.as_slice()) {
        Some(found) => found,
        None => {
            return None;
        },
    };
    let (input2, x) = match parse_number(input1) {
        Some(found) => found,
        None => {
            return None;
        },
    };
    let ghost first = number_at(input1@).unwrap();
    let ghost k1 = first.1;
    assert(input2@ =~= input@.skip(4 + k1));
    assert(input2@.len() > 0 ==> input2@[0] == input@[4 + k1]);
    let input3 = match parse_byte(input2, 44) {
        Some(rest) => rest,
        None => {
            return None;
        },
    };
    assert(input3@ =~= input@.skip(5 + k1));
    let (input4, y) = match parse_number(input3) {
        Some(found) => found,
        None => {
            return None;
        },
    };
    let ghost second = number_at(input3@).unwrap();
    let ghost k2 = second.1;
    assert(input4@ =~= input@.skip(5 + k1 + k2));
    assert(input4@.len() > 0 ==> input4@[0] == input@[5 + k1 + k2]);
    let input5 = match parse_byte(input4, 41) {
        Some(rest) => rest,
        None => {
            return None;
        },
    };
    assert(input5@ =~= input@.skip(6 + k1 + k2));
    Some((input5, Mul { x, y }))
}

/// Reads `do()` at the start of `input`.  Gives what follows it and the
/// word itself.
pub fn parse_do(input: &[u8]) -> (r: Option<(&[u8], &[u8])>)
    ensures
        match r {
            Some((rest, found)) => starts_with(input@, do_word()) && rest@ == input@.skip(4)
                && found@ == do_word(),
            None => !starts_with(input@, do_word()),
        },
{
    let word: [u8; 4] = [100, 111, 40, 41];
    assert(word@ =~= do_word());
    tag(input, word.as_slice())
}

/// Reads `don't()` at the start of `input`.  Gives what follows it and the
/// word itself.
pub fn parse_dont(input: &[u8]) -> (r: Option<(&[u8], &[u8])>)
    ensures
        match r {
            Some((rest, found)) => starts_with(input@, dont_word()) && rest@ == input@.skip(7)
                && found@ == dont_word(),
            None => !starts_with(input@, dont_word()),
        },
{
    let word: [u8; 7] = [100, 111, 110, 39, 116, 40, 41];
    assert(word@ =~= dont_word());
    tag(input, word.as_slice())
}

/// The sum of the products of the multiplications in `s`, read from the
/// front: where one stands it is taken whole, where none stands one byte
/// is passed over; with fewer than eight bytes left nothing is read.
pub open spec fn mul_sum(s: Seq<u8>) -> nat
    decreases s.len(),
{
    if s.len() < 8 {
        0
    } else {
        match mul_at(s) {
            Some((mul, used)) => (mul.x * mul.y) as nat + mul_sum(s.skip(used)),
            None => mul_sum(s.skip(1)),
        }
    }
}

/// The sum of the products of the multiplications in `s` that are turned
/// on.  `do()` turns them on, `don't()` turns them off, and `enabled` says
/// which holds at the start.  While they are off, only the two switches are
/// read.
pub open spec fn gated_sum(s: Seq<u8>, enabled: bool) -> nat
    decreases s.len(),
{
    if s.len() < 8 {
        0
    } else if starts_with(s, do_word()) {
        gated_sum(s.skip(4), true)
    } else if starts_with(s, dont_word()) {
        gated_sum(s.skip(7), false)
    } else if !enabled {
        gated_sum(s.skip(1), false)
    } else {
        match mul_at(s) {
            Some((mul, used)) => (mul.x * mul.y) as nat + gated_sum(s.skip(used), true),
            None => gated_sum(s.skip(1), true),
        }
    }
}

/// The sum of the products of the multiplications in `input`, or `None`
/// where it is above `usize::MAX`.
pub fn checked_solve_part_1(input: &str) -> (r: Option<usize>)
    ensures
        r == if mul_sum(input.spec_bytes()) <= usize::MAX {
            Some(mul_sum(input.spec_bytes()) as usize)
        } else {
            None
        },
{
    let mut input_slice = input.as_bytes();
    let mut sum: usize = 0;
    while input_slice.len() >= 8
        invariant
            mul_sum(input.spec_bytes()) == sum + mul_sum(input_slice@),
        decreases input_slice@.len(),
    {
        match parse_mul(input_slice) {
            Some((remainder, mul)) => {
                let next = match mul.x.checked_mul(mul.y) {
                    Some(product) => sum.checked_add(product),
                    None => None,
                };
                match next {
                    Some(s) => {
                        sum = s;
                    },
                    None => {
                        return None;
                    },
                }
                input_slice = remainder;
            },
            None => {
                assert(input_slice@.subrange(1, input_slice@.len() as int) =~= input_slice@.skip(
                    1,
                ));
                input_slice = slice_subrange(input_slice, 1, input_slice.len());
            },
        }
    }
    Some(sum)
}

/// The sum of the products of the multiplications in `input`.
pub fn solve_part_1(input: &str) -> (r: usize)
    requires
        mul_sum(input.spec_bytes()) <= usize::MAX,
    ensures
        r == mul_sum(input.spec_bytes()),
{
    match checked_solve_part_1(input) {
        Some(sum) => sum,
        None => unreached(),
    }
}

/// The sum of the products of the multiplications in `input` that are
/// turned on, or `None` where it is above `usize::MAX`.
pub fn checked_solve_part_2(input: &str) -> (r: Option<usize>)
    ensures
        r == if gated_sum(input.spec_bytes(), true) <= usize::MAX {
            Some(gated_sum(input.spec_bytes(), true) as usize)
        } else {
            None
        },
{
    let mut input_slice = input.as_bytes();
    let mut sum: usize = 0;
    let mut execute_instruction = true;
    while input_slice.len() >= 8
        invariant
            gated_sum(input.spec_bytes(), true) == sum + gated_sum(
                input_slice@,
                execute_instruction,
            ),
        decreases input_slice@.len(),
    {
        match parse_do(input_slice) {
            Some((remainder, _)) => {
                execute_instruction = true;
                input_slice = remainder;
                continue ;
            },
            None => {},
        }
        match parse_dont(input_slice) {
            Some((remainder, _)) => {
                execute_instruction = false;
                input_slice = remainder;
                continue ;
            },
            None => {},
        }
        if !execute_instruction {
            assert(input_slice@.subrange(1, input_slice@.len() as int) =~= input_slice@.skip(1));
            input_slice = slice_subrange(input_slice, 1, input_slice.len());
            continue ;
        }
        match parse_mul(input_slice) {
            Some((remainder, mul)) => {
                let next = match mul.x.checked_mul(mul.y) {
                    Some(product) => sum.checked_add(product),
                    None => None,
                };
                match next {
                    Some(s) => {
                        sum = s;
                    },
                    None => {
                        return None;
                    },
                }
                input_slice = remainder;
            },
            None => {
                assert(input_slice@.subrange(1, input_slice@.len() as int) =~= input_slice@.skip(
                    1,
                ));
                input_slice = slice_subrange(input_slice, 1, input_slice.len());
            },
        }
    }
    Some(sum)
}

/// The sum of the products of the multiplications in `input` that are
/// turned on.
pub fn solve_part_2(input: &str) -> (r: usize)
    requires
        gated_sum(input.spec_bytes(), true) <= usize::MAX,
    ensures
        r == gated_sum(input.spec_bytes(), true),
{
    match checked_solve_part_2(input) {
        Some(sum) => sum,
        None => unreached(),
    }
}

} // verus!
