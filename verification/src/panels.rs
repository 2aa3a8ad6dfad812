use crate::controls::{delimiter_at, filter_operator_at, operator_list, spec_custom_delimiter};
use crate::rules::{FilterOperator, FilterRule, SortDirection, SortKey};
use crate::text::{trim, trimmed};
use vstd::prelude::*;
use vstd::string::StrSliceExecFns;

verus! {

/// An ASCII decimal digit.
pub open spec fn is_digit(c: char) -> bool {
    '0' <= c && c <= '9'
}

/// Every character is an ASCII decimal digit.
pub open spec fn all_digits(s: Seq<char>) -> bool {
    forall|i: int| 0 <= i < s.len() ==> is_digit(#[trigger] s[i])
}

/// The number that decimal digits spell.
pub open spec fn digits_value(s: Seq<char>) -> int
    decreases s.len(),
{
    if s.len() == 0 {
        0
    } else {
        digits_value(s.drop_last()) * 10 + (s.last() as int - '0' as int)
    }
}

/// The whole number a text holds, read as `str::parse::<usize>` reads it: an
/// optional `+`, then one or more ASCII digits and nothing else, worth at
/// most `usize::MAX`.
pub open spec fn count_value(s: Seq<char>) -> Option<int> {
    let d = if s.len() > 0 && s[0] == '+' {
        s.drop_first()
    } else {
        s
    };
    if d.len() > 0 && all_digits(d) && digits_value(d) <= usize::MAX {
        Some(digits_value(d))
    } else {
        None
    }
}

/// Digits spell a number that is not negative.
proof fn lemma_digits_nonneg(s: Seq<char>)
    requires
        all_digits(s),
    ensures
        digits_value(s) >= 0,
    decreases s.len(),
{
    if s.len() > 0 {
        assert(is_digit(s[s.len() - 1]));
        lemma_digits_nonneg(s.drop_last());
    }
}

/// Reading more digits never makes the number smaller.
proof fn lemma_digits_grow(s: Seq<char>, k: int)
    requires
        0 <= k <= s.len(),
        all_digits(s),
    ensures
        digits_value(s.take(k)) <= digits_value(s),
    decreases s.len(),
{
    if k < s.len() {
        assert(s.drop_last().take(k) =~= s.take(k));
        lemma_digits_grow(s.drop_last(), k);
        lemma_digits_nonneg(s.drop_last());
        assert(is_digit(s[s.len() - 1]));
    } else {
        assert(s.take(k) =~= s);
    }
}

/// Reads a whole number as `str::parse::<usize>` does: an optional `+`
/// followed by one or more ASCII digits, nothing else, and a value that fits
/// in a `usize`.
pub fn parse_count(text: &str) -> (r: Option<usize>)
    ensures
        match r {
            Some(n) => count_value(text@) == Some(n as int),
            None => count_value(text@) is None,
        },
{
    assert(text@.skip(0) =~= text@);
    count_at(text, 0)
}

/// Reads the whole number that the text holds from position `from` on.
fn count_at(text: &str, from: usize) -> (r: Option<usize>)
    requires
        from <= text@.len(),
    ensures
        match r {
            Some(n) => count_value(text@.skip(from as int)) == Some(n as int),
            None => count_value(text@.skip(from as int)) is None,
        },
{
    let len = text.unicode_len();
    let ghost s = text@.skip(from as int);
    let mut start: usize = from;
    if from < len && text.get_char(from) == '+' {
        start = from + 1;
    }
    let ghost d = if s.len() > 0 && s[0] == '+' {
        s.drop_first()
    } else {
        s
    };
    assert(d =~= text@.subrange(start as int, len as int));
    if start >= len {
        return None;
    }
    let mut acc: usize = 0;
    let mut i: usize = start;
    while i < len
        invariant
            start <= i <= len,
            len == text@.len(),
            d == text@.subrange(start as int, len as int),
            start < len,
            s == text@.skip(from as int),
            count_value(s) == if all_digits(d) && digits_value(d) <= usize::MAX {
                Some(digits_value(d))
            } else {
                None
            },
            forall|k: int| start <= k < i ==> is_digit(#[trigger] text@[k]),
            acc as int == digits_value(text@.subrange(start as int, i as int)),
        decreases len - i,
    {
        let c = text.get_char(i);
        if !('0' <= c && c <= '9') {
            assert(!is_digit(d[i - start]));
            return None;
        }
        let digit = (c as u32 - '0' as u32) as usize;
        let ghost next = text@.subrange(start as int, i + 1);
        assert(next.drop_last() =~= text@.subrange(start as int, i as int));
        assert(digits_value(next) == acc * 10 + digit);
        if acc > (usize::MAX - digit) / 10 {
            assert(acc * 10 + digit > usize::MAX) by (nonlinear_arith)
                requires
                    acc > (usize::MAX - digit) / 10,
                    digit <= 9,
            ;
            proof {
                if all_digits(d) {
                    assert(d.take(i + 1 - start) =~= next);
                    lemma_digits_grow(d, i + 1 - start);
                }
            }
            return None;
        }
        assert(acc * 10 + digit <= usize::MAX) by (nonlinear_arith)
            requires
                acc <= (usize::MAX - digit) / 10,
                digit <= 9,
        ;
        acc = acc * 10 + digit;
        i += 1;
    }
    assert(all_digits(d)) by {
        assert forall|k: int| 0 <= k < d.len() implies is_digit(#[trigger] d[k]) by {
            assert(d[k] == text@[start + k]);
        }
    }
    Some(acc)
}

/// A column of the table view: the row numbers, or a shown data column.
#[derive(Debug, Clone, Copy, PartialEq, Eq, Structural)]
pub enum VisibleColumn {
    RowNumber,
    Data(usize),
}

/// The column a table column identifier names: `__row_number__` for the
/// row numbers, `c:` and a display position for a data column.
pub open spec fn column_from_identifier(id: Seq<char>) -> Option<VisibleColumn> {
    if id == "__row_number__"@ {
        Some(VisibleColumn::RowNumber)
    } else if id.len() >= 2 && id[0] == 'c' && id[1] == ':' {
        match count_value(id.skip(2)) {
            Some(n) => Some(VisibleColumn::Data(n as usize)),
            None => None,
        }
    } else {
        None
    }
}

/// Whether two texts are the same.
pub(crate) fn same_chars(a: &str, b: &str) -> (r: bool)
    ensures
        r == (a@ == b@),
{
    let n = a.unicode_len();
    if n != b.unicode_len() {
        return false;
    }
    let mut i: usize = 0;
    while i < n
        invariant
            i <= n,
            n == a@.len(),
            n == b@.len(),
            forall|k: int| 0 <= k < i ==> a@[k] == b@[k],
        decreases n - i,
    {
        if a.get_char(i) != b.get_char(i) {
            return false;
        }
        i += 1;
    }
    assert(a@ =~= b@);
    true
}

/// Reads a table column identifier: the row number column, or the display
/// position of a data column.
pub fn visible_column_from_identifier(identifier: &str) -> (r: Option<VisibleColumn>)
    ensures
        r == column_from_identifier(identifier@),
{
    if same_chars(identifier, "__row_number__") {
        return Some(VisibleColumn::RowNumber);
    }
    if identifier.unicode_len() >= 2 && identifier.get_char(0) == 'c' && identifier.get_char(1) == ':' {
        match count_at(identifier, 2) {
            Some(n) => Some(VisibleColumn::Data(n)),
            None => None,
        }
    } else {
        None
    }
}

/// The rows to keep aside typed in a field: the trimmed text read as a whole
/// number, or 0 when it is not one.
pub fn skip_rows_from_text(text: &str) -> (n: usize)
    ensures
        n as int == match count_value(trimmed(text@)) {
            Some(v) => v,
            None => 0,
        },
{
    match parse_count(trim(text)) {
        Some(n) => n,
        None => 0,
    }
}

/// What the formatting panel asks for: the header setting, the rows kept
/// aside and the separator.
#[derive(Debug, Clone, Copy, PartialEq, Eq, Structural)]
pub struct FormattingDraft {
    pub first_row_is_header: bool,
    pub skip_rows: usize,
    pub delimiter: u8,
}

/// The separator chosen in the separator menu at `index`, with `custom` in
/// the custom field.
pub open spec fn delimiter_choice(index: isize, custom: Seq<char>) -> Result<u8, Seq<char>> {
    if index == 0 {
        Ok(44u8)
    } else if index == 1 {
        Ok(59u8)
    } else if index == 2 {
        Ok(9u8)
    } else if index == 3 {
        Ok(124u8)
    } else if index == 4 {
        Ok(58u8)
    } else {
        spec_custom_delimiter(custom)
    }
}

/// Reads the formatting panel: the header box, the rows-to-skip field and the
/// separator menu with its custom field. The rows to skip must be a whole
/// number; the separator must be one the menu or the custom field allows.
/// Errors give the message the panel shows.
pub fn formatting_draft(header_on: bool, skip_text: &str, delimiter_index: isize, custom: &str) -> (r:
    Result<FormattingDraft, String>)
    ensures
        count_value(trimmed(skip_text@)) is None ==> (r matches Err(m) && m@
            == "Skip rows must be a whole number."@),
        count_value(trimmed(skip_text@)) matches Some(n) ==> match delimiter_choice(
            delimiter_index,
            custom@,
        ) {
            Ok(d) => r == Ok::<FormattingDraft, String>(
                FormattingDraft { first_row_is_header: header_on, skip_rows: n as usize, delimiter: d },
            ),
            Err(e) => r matches Err(m) && m@ == e,
        },
{
    let skip_rows = match parse_count(trim(skip_text)) {
        Some(n) => n,
        None => {
            return Err("Skip rows must be a whole number.".to_owned());
        },
    };
    let delimiter = match delimiter_at(delimiter_index, custom) {
        Ok(d) => d,
        Err(m) => {
            return Err(m);
        },
    };
    Ok(FormattingDraft { first_row_is_header: header_on, skip_rows, delimiter })
}

/// A sort row of the sort and filter panel: the column menu's position (-1
/// when nothing is chosen) and the direction menu's position.
#[derive(Debug, Clone, Copy, PartialEq, Eq, Structural)]
pub struct SortRowChoice {
    pub column: isize,
    pub direction: isize,
}

/// A filter row of the sort and filter panel: the column menu's position (-1
/// when nothing is chosen), the operator menu's position and the value typed.
pub struct FilterRowChoice {
    pub column: isize,
    pub operator: isize,
    pub value: String,
}

/// The sort key a sort row asks for, if it names a column.
pub open spec fn sort_choice(row: SortRowChoice) -> Option<SortKey> {
    if row.column < 0 {
        None
    } else {
        Some(
            SortKey {
                column: row.column as usize,
                direction: if row.direction == 1 {
                    SortDirection::Descending
                } else {
                    SortDirection::Ascending
                },
            },
        )
    }
}

/// The operator at a position of the operator menu (the first one outside it).
pub open spec fn operator_choice(index: isize) -> FilterOperator {
    if 0 <= index < operator_list().len() {
        operator_list()[index as int]
    } else {
        operator_list()[0]
    }
}

/// A filter row is used: it names a column, and it has a value unless its
/// operator needs none.
pub open spec fn filter_row_used(column: isize, operator: isize, value: Seq<char>) -> bool {
    &&& column >= 0
    &&& (value.len() > 0 || operator_choice(operator) == FilterOperator::IsEmpty
        || operator_choice(operator) == FilterOperator::IsNotEmpty)
}

/// The sort keys the sort rows ask for, in order.
pub open spec fn sort_choices(rows: Seq<SortRowChoice>) -> Seq<SortKey>
    decreases rows.len(),
{
    if rows.len() == 0 {
        Seq::empty()
    } else {
        let before = sort_choices(rows.drop_last());
        match sort_choice(rows.last()) {
            Some(k) => before.push(k),
            None => before,
        }
    }
}

/// The filter rules the filter rows ask for, in order: real column, operator
/// and value of each used row.
pub open spec fn filter_choices(rows: Seq<(isize, isize, Seq<char>)>) -> Seq<(usize, FilterOperator, Seq<char>)>
    decreases rows.len(),
{
    if rows.len() == 0 {
        Seq::empty()
    } else {
        let before = filter_choices(rows.drop_last());
        let (column, operator, value) = rows.last();
        if filter_row_used(column, operator, value) {
            before.push((column as usize, operator_choice(operator), value))
        } else {
            before
        }
    }
}

/// A filter row as plain values.
pub open spec fn filter_row_view(row: FilterRowChoice) -> (isize, isize, Seq<char>) {
    (row.column, row.operator, row.value@)
}

/// A filter rule as plain values.
pub open spec fn filter_rule_view(rule: FilterRule) -> (usize, FilterOperator, Seq<char>) {
    (rule.column, rule.operator, rule.value@)
}

/// Reads the sort and filter panel: each sort row that names a column gives
/// a key (the second direction entry is descending), and each filter row
/// that names a column and has a value (or an operator that needs none)
/// gives a rule.
pub fn sort_filter_draft(sort_rows: &Vec<SortRowChoice>, filter_rows: &Vec<FilterRowChoice>) -> (r: (
    Vec<SortKey>,
    Vec<FilterRule>,
))
    ensures
        r.0@ == sort_choices(sort_rows@),
        r.1@.map_values(|f: FilterRule| filter_rule_view(f)) == filter_choices(
            filter_rows@.map_values(|f: FilterRowChoice| filter_row_view(f)),
        ),
{
    let mut sorts: Vec<SortKey> = Vec::new();
    let mut i: usize = 0;
    while i < sort_rows.len()
        invariant
            i <= sort_rows@.len(),
            sorts@ == sort_choices(sort_rows@.take(i as int)),
        decreases sort_rows@.len() - i,
    {
        let row = sort_rows[i];
        assert(sort_rows@.take(i + 1).drop_last() =~= sort_rows@.take(i as int));
        if row.column >= 0 {
            let direction = if row.direction == 1 {
                SortDirection::Descending
            } else {
                SortDirection::Ascending
            };
            sorts.push(SortKey { column: row.column as usize, direction });
        }
        i += 1;
    }
    assert(sort_rows@.take(sort_rows@.len() as int) =~= sort_rows@);
    let ghost views = filter_rows@.map_values(|f: FilterRowChoice| filter_row_view(f));
    let mut filters: Vec<FilterRule> = Vec::new();
    let mut j: usize = 0;
    while j < filter_rows.len()
        invariant
            j <= filter_rows@.len(),
            views == filter_rows@.map_values(|f: FilterRowChoice| filter_row_view(f)),
            filters@.map_values(|f: FilterRule| filter_rule_view(f)) == filter_choices(
                views.take(j as int),
            ),
        decreases filter_rows@.len() - j,
    {
        let row = &filter_rows[j];
        assert(views.take(j + 1).drop_last() =~= views.take(j as int));
        assert(views.take(j + 1).last() == filter_row_view(*row));
        let operator = filter_operator_at(row.operator);
        assert(operator == operator_choice(row.operator));
        let used = row.column >= 0 && (row.value.unicode_len() > 0 || operator
            == FilterOperator::IsEmpty || operator == FilterOperator::IsNotEmpty);
        let ghost before = filters@;
        if used {
            let value = row.value.clone();
            filters.push(FilterRule { column: row.column as usize, operator, value });
            assert(filters@.map_values(|f: FilterRule| filter_rule_view(f)) =~= before.map_values(
                |f: FilterRule| filter_rule_view(f),
            ).push(filter_rule_view(filters@.last())));
        }
        j += 1;
    }
    assert(views.take(filter_rows@.len() as int) =~= views);
    (sorts, filters)
}

/// A launch argument the system adds for a process serial number, which is
/// no path.
pub open spec fn is_process_serial(arg: Seq<char>) -> bool {
    arg.len() >= 5 && arg.take(5) == "-psn_"@
}

/// Whether an argument starts with `-psn_`.
fn starts_with_psn(arg: &str) -> (r: bool)
    ensures
        r == is_process_serial(arg@),
{
    proof {
        reveal_strlit("-psn_");
    }
    if arg.unicode_len() < 5 {
        return false;
    }
    let r = arg.get_char(0) == '-' && arg.get_char(1) == 'p' && arg.get_char(2) == 's'
        && arg.get_char(3) == 'n' && arg.get_char(4) == '_';
    assert("-psn_"@ =~= seq!['-', 'p', 's', 'n', '_']);
    assert(arg@.take(5) =~= seq![arg@[0], arg@[1], arg@[2], arg@[3], arg@[4]]);
    r
}

/// The file to open given at launch: the first argument (after the
/// program's name) that is not a process serial number.
pub fn launch_path_arg(args: &Vec<String>) -> (r: Option<usize>)
    ensures
        match r {
            Some(i) => i < args@.len() && !is_process_serial(args@[i as int]@) && forall|k: int|
                0 <= k < i ==> is_process_serial(#[trigger] args@[k]@),
            None => forall|k: int| 0 <= k < args@.len() ==> is_process_serial(#[trigger] args@[k]@),
        },
{
    let mut i: usize = 0;
    while i < args.len()
        invariant
            i <= args@.len(),
            forall|k: int| 0 <= k < i ==> is_process_serial(#[trigger] args@[k]@),
        decreases args@.len() - i,
    {
        if !starts_with_psn(args[i].as_str()) {
            return Some(i);
        }
        i += 1;
    }
    None
}

} // verus!
