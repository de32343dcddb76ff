//! The grammars of the library, held against the same grammars written
//! with parser combinators.

use nom::bytes::complete::{tag, take_while1};
use nom::combinator::map_res;
use nom::multi::separated_list1;
use nom::sequence::separated_pair;
use nom::IResult;

use aoc2024::calibration::parse_input_line;
use aoc2024::memory::{parse_do, parse_dont, parse_mul, Mul};
use aoc2024::pages::{parse_ordering_rule, parse_pages, PageOrderingRule};

fn number(input: &str) -> Result<usize, std::num::ParseIntError> {
    input.parse()
}

fn digit(c: char) -> bool {
    c.is_ascii_digit()
}

fn combined_mul(input: &str) -> IResult<&str, Mul> {
    let (input, _) = tag("mul(")(input)?;
    let (input, x) = map_res(take_while1(digit), number)(input)?;
    let (input, _) = tag(",")(input)?;
    let (input, y) = map_res(take_while1(digit), number)(input)?;
    let (input, _) = tag(")")(input)?;

    Ok((input, Mul { x, y }))
}

fn combined_do(input: &str) -> IResult<&str, &str> {
    tag("do()")(input)
}

fn combined_dont(input: &str) -> IResult<&str, &str> {
    tag("don't()")(input)
}

fn combined_rule(input: &str) -> IResult<&str, PageOrderingRule> {
    let (remainder, (left, right)) = separated_pair(
        map_res(take_while1(digit), number),
        tag("|"),
        map_res(take_while1(digit), number),
    )(input)?;

    Ok((remainder, PageOrderingRule { left, right }))
}

fn combined_pages(input: &str) -> IResult<&str, Vec<usize>> {
    separated_list1(tag(","), map_res(take_while1(digit), number))(input)
}

fn combined_equation_text(input: &str) -> IResult<&str, (usize, Vec<&str>)> {
    let (input, sum) = map_res(take_while1(digit), number)(input)?;
    let (input, _) = tag(": ")(input)?;
    let (input, raw) = separated_list1(tag(" "), take_while1(digit))(input)?;

    Ok((input, (sum, raw)))
}

fn combined_equation(input: &str) -> Option<(usize, Vec<usize>)> {
    let (_, (sum, raw)) = combined_equation_text(input).ok()?;
    let mut numbers = Vec::new();
    for text in raw {
        numbers.push(text.parse().ok()?);
    }
    Some((sum, numbers))
}

const SAMPLES: [&str; 44] = [
    "",
    "m",
    "mul(",
    "mul(1,2)",
    "mul(1,2",
    "mul(1,2))",
    "mul(12,345)tail",
    "mul(,2)",
    "mul(1,)",
    "mul(1;2)",
    "mul( 1,2)",
    "mul(1 ,2)",
    "mul(+1,2)",
    "mul(-1,2)",
    "mul(007,08)",
    "mul(18446744073709551615,1)",
    "mul(18446744073709551616,1)",
    "mul(1,18446744073709551616)",
    "xmul(1,2)",
    "do()",
    "do()do()",
    "do",
    "don't()",
    "don't()x",
    "don't(",
    "47|53",
    "47|53 and more",
    "47|",
    "|53",
    "47,53",
    "47||53",
    "18446744073709551616|1",
    "1|18446744073709551616",
    "75,47,61,53,29",
    "75",
    "75,",
    ",75",
    "75,,47",
    "75,47x,61",
    "75,18446744073709551616,61",
    "18446744073709551616,75",
    "75, 47",
    "190: 10 19",
    "3267: 81 40 27",
];

const EQUATIONS: [&str; 16] = [
    "190: 10 19",
    "190: 10 19 ",
    "190: 10  19",
    "190:10 19",
    "190 : 10 19",
    "190: ",
    "190:",
    "190",
    ": 10",
    "",
    "190: x",
    "190: 10 x",
    "190: 10,19",
    "18446744073709551616: 1",
    "18446744073709551615: 18446744073709551615 0",
    "1: 18446744073709551616",
];

#[test]
fn multiplications_are_read_alike() {
    for text in SAMPLES {
        let ours = parse_mul(text.as_bytes());
        let theirs = combined_mul(text)
            .ok()
            .map(|(rest, mul)| (rest.as_bytes(), mul));
        assert_eq!(ours, theirs, "{text:?}");
    }
}

#[test]
fn switches_are_read_alike() {
    for text in SAMPLES {
        let ours = parse_do(text.as_bytes());
        let theirs = combined_do(text)
            .ok()
            .map(|(rest, found)| (rest.as_bytes(), found.as_bytes()));
        assert_eq!(ours, theirs, "{text:?}");
        let ours = parse_dont(text.as_bytes());
        let theirs = combined_dont(text)
            .ok()
            .map(|(rest, found)| (rest.as_bytes(), found.as_bytes()));
        assert_eq!(ours, theirs, "{text:?}");
    }
}

#[test]
fn rules_are_read_alike() {
    for text in SAMPLES {
        let ours = parse_ordering_rule(text.as_bytes());
        let theirs = combined_rule(text)
            .ok()
            .map(|(rest, rule)| (rest.as_bytes(), rule));
        assert_eq!(ours, theirs, "{text:?}");
    }
}

#[test]
fn pages_are_read_alike() {
    for text in SAMPLES {
        let ours = parse_pages(text.as_bytes());
        let theirs = combined_pages(text).ok().map(|(_, pages)| pages);
        assert_eq!(ours, theirs, "{text:?}");
    }
}

#[test]
fn equations_are_read_alike() {
    for text in EQUATIONS.iter().chain(SAMPLES.iter()) {
        let ours = parse_input_line(text.as_bytes())
            .map(|equation| (equation.calibration_sum, equation.calibration_vectors));
        let theirs = combined_equation(text);
        assert_eq!(ours, theirs, "{text:?}");
    }
}
