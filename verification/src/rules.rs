use crate::text::{
    compare_bytes, contains_bytes, ends_with_bytes, equal_bytes, is_number_reader, lex_order,
    lowercase, read_with, reading, starts_with_bytes, to_lowercase, trim, trimmed, bytes_contain,
    bytes_end_with, bytes_start_with, int_order, Comparison,
};
use vstd::prelude::*;
use vstd::utf8::encode_utf8;

verus! {

/// Direction of one sort key.
#[derive(Debug, Clone, Copy, PartialEq, Eq, Structural)]
pub enum SortDirection {
    Ascending,
    Descending,
}

/// Sort by one column in one direction.
#[derive(Debug, Clone, Copy, PartialEq, Eq, Structural)]
pub struct SortKey {
    pub column: usize,
    pub direction: SortDirection,
}

/// The simple per-column filters of the filter bar.
#[derive(Debug, Clone, PartialEq, Eq)]
pub enum ColumnFilter {
    Contains(String),
    Equals(String),
    Empty,
    NotEmpty,
}

/// The tests a filter rule can make of a cell.
#[derive(Debug, Clone, Copy, PartialEq, Eq, Structural)]
pub enum FilterOperator {
    Contains,
    DoesNotContain,
    Equals,
    DoesNotEqual,
    StartsWith,
    EndsWith,
    GreaterThan,
    GreaterThanOrEqual,
    LessThan,
    LessThanOrEqual,
    IsEmpty,
    IsNotEmpty,
}

/// A filter rule: cells of `column` must pass `operator` against `value`.
#[derive(Debug, Clone, PartialEq, Eq)]
pub struct FilterRule {
    pub column: usize,
    pub operator: FilterOperator,
    pub value: String,
}

/// A rule as plain values.
pub struct RuleView {
    pub column: usize,
    pub operator: FilterOperator,
    pub value: Seq<char>,
}

impl View for FilterRule {
    type V = RuleView;

    open spec fn view(&self) -> RuleView {
        RuleView { column: self.column, operator: self.operator, value: self.value@ }
    }
}

pub open spec fn rules_view(v: Seq<FilterRule>) -> Seq<RuleView> {
    v.map_values(|r: FilterRule| r@)
}

/// A copy of the rule.
pub fn clone_rule(rule: &FilterRule) -> (r: FilterRule)
    ensures
        r@ == rule@,
{
    FilterRule { column: rule.column, operator: rule.operator, value: rule.value.clone() }
}

/// A copy of a list of rules.
pub fn clone_rules(rules: &Vec<FilterRule>) -> (r: Vec<FilterRule>)
    ensures
        rules_view(r@) == rules_view(rules@),
{
    let mut out: Vec<FilterRule> = Vec::new();
    let mut i: usize = 0;
    while i < rules.len()
        invariant
            i <= rules@.len(),
            out@.len() == i,
            forall|j: int| 0 <= j < i ==> (#[trigger] out@[j])@ == rules@[j]@,
        decreases rules@.len() - i,
    {
        out.push(clone_rule(&rules[i]));
        i += 1;
    }
    assert(rules_view(out@) =~= rules_view(rules@));
    out
}

/// The rule that a simple column filter stands for.
pub open spec fn spec_legacy_rule(column: usize, filter: ColumnFilter) -> RuleView {
    match filter {
        ColumnFilter::Contains(v) => RuleView {
            column,
            operator: FilterOperator::Contains,
            value: v@,
        },
        ColumnFilter::Equals(v) => RuleView { column, operator: FilterOperator::Equals, value: v@ },
        ColumnFilter::Empty => RuleView {
            column,
            operator: FilterOperator::IsEmpty,
            value: Seq::empty(),
        },
        ColumnFilter::NotEmpty => RuleView {
            column,
            operator: FilterOperator::IsNotEmpty,
            value: Seq::empty(),
        },
    }
}

/// Turns a simple column filter into the equivalent rule.
pub fn legacy_filter_rule(column: usize, filter: ColumnFilter) -> (r: FilterRule)
    ensures
        r@ == spec_legacy_rule(column, filter),
{
    match filter {
        ColumnFilter::Contains(value) => FilterRule {
            column,
            operator: FilterOperator::Contains,
            value,
        },
        ColumnFilter::Equals(value) => FilterRule { column, operator: FilterOperator::Equals, value },
        ColumnFilter::Empty => FilterRule {
            column,
            operator: FilterOperator::IsEmpty,
            value: String::new(),
        },
        ColumnFilter::NotEmpty => FilterRule {
            column,
            operator: FilterOperator::IsNotEmpty,
            value: String::new(),
        },
    }
}

/// 2 to the 52nd: one step of the binary exponent field of an IEEE double.
pub const EXPONENT_UNIT: u64 = 4503599627370496;

/// 2 to the 63rd: the sign bit of an IEEE double.
pub const SIGN_BIT: u64 = 9223372036854775808;

/// The double with these bits is neither infinite nor NaN.
pub open spec fn finite_bits(b: u64) -> bool {
    (b / EXPONENT_UNIT) % 2048 != 2047
}

/// The sign bit of a double is set.
pub open spec fn sign_set(b: u64) -> bool {
    b >= SIGN_BIT
}

/// The biased exponent field of a double.
pub open spec fn exponent_field(b: u64) -> int {
    ((b % SIGN_BIT) / EXPONENT_UNIT) as int
}

/// The fraction field of a double.
pub open spec fn fraction_field(b: u64) -> int {
    (b % EXPONENT_UNIT) as int
}

/// The double is zero (of either sign).
pub open spec fn is_zero_bits(b: u64) -> bool {
    exponent_field(b) == 0 && fraction_field(b) == 0
}

/// The double with the opposite sign.
pub open spec fn negated_bits(b: u64) -> u64 {
    if b >= SIGN_BIT {
        (b - SIGN_BIT) as u64
    } else {
        (b + SIGN_BIT) as u64
    }
}

/// Doubles compare by their values: the two zeros are equal; every
/// negative number is below zero and every positive one above it; among
/// numbers that are not negative, a larger exponent field means a larger
/// number, and with equal exponents a larger fraction does; and changing
/// both signs turns the comparison around.
pub proof fn lemma_float_order_values(a: u64, b: u64)
    ensures
        is_zero_bits(a) && is_zero_bits(b) ==> float_order(a, b) == Comparison::Equal,
        sign_set(a) && !is_zero_bits(a) && (!sign_set(b) || is_zero_bits(b)) ==> float_order(a, b)
            == Comparison::Less,
        !sign_set(a) && !is_zero_bits(a) && (sign_set(b) || is_zero_bits(b)) ==> float_order(a, b)
            == Comparison::Greater,
        !sign_set(a) && !sign_set(b) && exponent_field(a) < exponent_field(b) ==> float_order(a, b)
            == Comparison::Less,
        !sign_set(a) && !sign_set(b) && exponent_field(a) == exponent_field(b) && fraction_field(a)
            < fraction_field(b) ==> float_order(a, b) == Comparison::Less,
        !sign_set(a) && !sign_set(b) && exponent_field(a) == exponent_field(b) && fraction_field(a)
            == fraction_field(b) ==> float_order(a, b) == Comparison::Equal,
        float_order(negated_bits(a), negated_bits(b)) == float_order(b, a),
{
    let ma = a % SIGN_BIT;
    let mb = b % SIGN_BIT;
    assert(ma == exponent_field(a) * EXPONENT_UNIT + fraction_field(a));
    assert(mb == exponent_field(b) * EXPONENT_UNIT + fraction_field(b));
    assert(negated_bits(a) % SIGN_BIT == ma);
    assert(negated_bits(b) % SIGN_BIT == mb);
    assert(negated_bits(a) >= SIGN_BIT <==> a < SIGN_BIT);
    assert(negated_bits(b) >= SIGN_BIT <==> b < SIGN_BIT);
}

/// How two finite doubles, given by their bits, compare (zero equals negative zero).
pub open spec fn float_order(a: u64, b: u64) -> Comparison {
    let ma = a % SIGN_BIT;
    let mb = b % SIGN_BIT;
    let na = a >= SIGN_BIT;
    let nb = b >= SIGN_BIT;
    if ma == 0 && mb == 0 {
        Comparison::Equal
    } else if !na && !nb {
        int_order(ma as int, mb as int)
    } else if na && nb {
        int_order(mb as int, ma as int)
    } else if na {
        Comparison::Less
    } else {
        Comparison::Greater
    }
}

pub(crate) fn is_finite_bits(b: u64) -> (r: bool)
    ensures
        r == finite_bits(b),
{
    (b / EXPONENT_UNIT) % 2048 != 2047
}

/// Compares two finite doubles given by their bits.
pub fn compare_float_bits(a: u64, b: u64) -> (c: Comparison)
    ensures
        c == float_order(a, b),
{
    let ma = a % SIGN_BIT;
    let mb = b % SIGN_BIT;
    let na = a >= SIGN_BIT;
    let nb = b >= SIGN_BIT;
    if ma == 0 && mb == 0 {
        Comparison::Equal
    } else if !na && !nb {
        if ma < mb {
            Comparison::Less
        } else if ma == mb {
            Comparison::Equal
        } else {
            Comparison::Greater
        }
    } else if na && nb {
        if mb < ma {
            Comparison::Less
        } else if mb == ma {
            Comparison::Equal
        } else {
            Comparison::Greater
        }
    } else if na {
        Comparison::Less
    } else {
        Comparison::Greater
    }
}

/// The number a cell holds: the reader's double for the trimmed text, if finite.
pub open spec fn number_of<F: Fn(&str) -> Option<u64>>(f: &F, v: Seq<char>) -> Option<u64> {
    match reading(f, trimmed(v)) {
        Some(b) => if finite_bits(b) {
            Some(b)
        } else {
            None
        },
        None => None,
    }
}

/// Reads a cell as a number: its trimmed text, when it parses to a finite double.
pub fn parse_number<F: Fn(&str) -> Option<u64>>(value: &str, numbers: &F) -> (r: Option<u64>)
    requires
        is_number_reader(numbers),
    ensures
        r == number_of(numbers, value@),
{
    let t = trim(value);
    match read_with(numbers, t) {
        Some(b) => if is_finite_bits(b) {
            Some(b)
        } else {
            None
        },
        None => None,
    }
}

/// Byte order of the lowercase forms of two texts.
pub open spec fn lowercase_order(l: Seq<char>, r: Seq<char>) -> Comparison {
    lex_order(encode_utf8(lowercase(l)), encode_utf8(lowercase(r)))
}

fn compare_lowercase(left: &str, right: &str) -> (c: Comparison)
    ensures
        c == lowercase_order(left@, right@),
{
    let l = to_lowercase(left);
    let r = to_lowercase(right);
    compare_bytes(l.as_str().as_bytes(), r.as_str().as_bytes())
}

/// Order used to sort: numbers by value when both cells are numbers, otherwise
/// the lowercase texts byte by byte.
pub open spec fn natural_order<F: Fn(&str) -> Option<u64>>(
    f: &F,
    l: Seq<char>,
    r: Seq<char>,
) -> Comparison {
    match (number_of(f, l), number_of(f, r)) {
        (Some(a), Some(b)) => float_order(a, b),
        _ => lowercase_order(l, r),
    }
}

/// Compares two cells for sorting.
pub fn naturalish_order<F: Fn(&str) -> Option<u64>>(left: &str, right: &str, numbers: &F) -> (c:
    Comparison)
    requires
        is_number_reader(numbers),
    ensures
        c == natural_order(numbers, left@, right@),
{
    match (parse_number(left, numbers), parse_number(right, numbers)) {
        (Some(a), Some(b)) => compare_float_bits(a, b),
        _ => compare_lowercase(left, right),
    }
}

/// Comparison used by the ordering filters: numbers by value when both are
/// numbers, texts case-insensitively when neither is, no answer for a mix.
pub open spec fn filter_order<F: Fn(&str) -> Option<u64>>(
    f: &F,
    value: Seq<char>,
    expected: Seq<char>,
) -> Option<Comparison> {
    match (number_of(f, value), number_of(f, expected)) {
        (Some(a), Some(b)) => Some(float_order(a, b)),
        (None, None) => Some(lowercase_order(value, expected)),
        _ => None,
    }
}

/// Compares a cell with a filter value.
pub fn compare_filter_value<F: Fn(&str) -> Option<u64>>(
    value: &str,
    expected: &str,
    numbers: &F,
) -> (c: Option<Comparison>)
    requires
        is_number_reader(numbers),
    ensures
        c == filter_order(numbers, value@, expected@),
{
    match (parse_number(value, numbers), parse_number(expected, numbers)) {
        (Some(a), Some(b)) => Some(compare_float_bits(a, b)),
        (None, None) => Some(compare_lowercase(value, expected)),
        _ => None,
    }
}

/// Whether a cell passes a rule.
pub open spec fn rule_holds<F: Fn(&str) -> Option<u64>>(
    f: &F,
    op: FilterOperator,
    pattern: Seq<char>,
    value: Seq<char>,
) -> bool {
    let v = encode_utf8(value);
    let p = encode_utf8(pattern);
    match op {
        FilterOperator::IsEmpty => value.len() == 0,
        FilterOperator::IsNotEmpty => value.len() != 0,
        FilterOperator::Contains => bytes_contain(v, p),
        FilterOperator::DoesNotContain => !bytes_contain(v, p),
        FilterOperator::Equals => value == pattern,
        FilterOperator::DoesNotEqual => value != pattern,
        FilterOperator::StartsWith => bytes_start_with(v, p),
        FilterOperator::EndsWith => bytes_end_with(v, p),
        FilterOperator::GreaterThan => filter_order(f, value, pattern) == Some(Comparison::Greater),
        FilterOperator::GreaterThanOrEqual => filter_order(f, value, pattern) == Some(
            Comparison::Greater,
        ) || filter_order(f, value, pattern) == Some(Comparison::Equal),
        FilterOperator::LessThan => filter_order(f, value, pattern) == Some(Comparison::Less),
        FilterOperator::LessThanOrEqual => filter_order(f, value, pattern) == Some(
            Comparison::Less,
        ) || filter_order(f, value, pattern) == Some(Comparison::Equal),
    }
}

fn same_text(a: &str, b: &str) -> (r: bool)
    ensures
        r == (a@ == b@),
{
    let r = equal_bytes(a.as_bytes(), b.as_bytes());
    proof {
        vstd::utf8::encode_utf8_decode_utf8(a@);
        vstd::utf8::encode_utf8_decode_utf8(b@);
    }
    r
}

/// Tests a cell against a rule.
pub fn rule_matches_value<F: Fn(&str) -> Option<u64>>(
    rule: &FilterRule,
    value: &str,
    numbers: &F,
) -> (r: bool)
    requires
        is_number_reader(numbers),
    ensures
        r == rule_holds(numbers, rule.operator, rule.value@, value@),
{
    let pattern = rule.value.as_str();
    match rule.operator {
        FilterOperator::IsEmpty => value.is_empty(),
        FilterOperator::IsNotEmpty => !value.is_empty(),
        FilterOperator::Contains => contains_bytes(value.as_bytes(), pattern.as_bytes()),
        FilterOperator::DoesNotContain => !contains_bytes(value.as_bytes(), pattern.as_bytes()),
        FilterOperator::Equals => same_text(value, pattern),
        FilterOperator::DoesNotEqual => !same_text(value, pattern),
        FilterOperator::StartsWith => starts_with_bytes(value.as_bytes(), pattern.as_bytes()),
        FilterOperator::EndsWith => ends_with_bytes(value.as_bytes(), pattern.as_bytes()),
        FilterOperator::GreaterThan => {
            compare_filter_value(value, pattern, numbers) == Some(Comparison::Greater)
        },
        FilterOperator::GreaterThanOrEqual => {
            let c = compare_filter_value(value, pattern, numbers);
            c == Some(Comparison::Greater) || c == Some(Comparison::Equal)
        },
        FilterOperator::LessThan => {
            compare_filter_value(value, pattern, numbers) == Some(Comparison::Less)
        },
        FilterOperator::LessThanOrEqual => {
            let c = compare_filter_value(value, pattern, numbers);
            c == Some(Comparison::Less) || c == Some(Comparison::Equal)
        },
    }
}

} // verus!
