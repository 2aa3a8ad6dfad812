use crate::dialect::{line_ending_chars, CsvDialect};
use crate::parser::{encode_field, spec_encode_field};
use crate::text::{push_char, push_str};
use vstd::prelude::*;

verus! {

/// The texts of a list of strings.
pub open spec fn texts(v: Seq<String>) -> Seq<Seq<char>> {
    Seq::new(v.len(), |i: int| v[i]@)
}

/// The texts of a list of rows.
pub open spec fn grid(v: Seq<Vec<String>>) -> Seq<Seq<Seq<char>>> {
    Seq::new(v.len(), |i: int| texts(v[i]@))
}

/// One record as written: its fields encoded and joined by the delimiter.
pub open spec fn record_text(values: Seq<Seq<char>>, d: CsvDialect) -> Seq<char>
    decreases values.len(),
{
    if values.len() == 0 {
        Seq::empty()
    } else {
        let sep = if values.len() > 1 {
            seq![d.delimiter as char]
        } else {
            Seq::empty()
        };
        record_text(values.drop_last(), d) + sep + spec_encode_field(values.last(), d)
    }
}

/// Records as written: each record's text, joined by the line ending (none
/// after the last record).
pub open spec fn records_text(records: Seq<Seq<Seq<char>>>, d: CsvDialect) -> Seq<char>
    decreases records.len(),
{
    if records.len() == 0 {
        Seq::empty()
    } else {
        let sep = if records.len() > 1 {
            line_ending_chars(d.line_ending)
        } else {
            Seq::empty()
        };
        records_text(records.drop_last(), d) + sep + record_text(records.last(), d)
    }
}

/// Some value of the row is not empty.
pub open spec fn filled(row: Seq<Seq<char>>) -> bool {
    exists|i: int| 0 <= i < row.len() && (#[trigger] row[i]).len() > 0
}

/// Length of the row up to and including its last non-empty value.
pub open spec fn used_width(row: Seq<Seq<char>>) -> nat
    decreases row.len(),
{
    if row.len() == 0 {
        0
    } else if row.last().len() > 0 {
        row.len()
    } else {
        used_width(row.drop_last())
    }
}

/// Number of rows up to and including the last row with a non-empty value.
pub open spec fn used_rows(rows: Seq<Seq<Seq<char>>>) -> nat
    decreases rows.len(),
{
    if rows.len() == 0 {
        0
    } else if filled(rows.last()) {
        rows.len()
    } else {
        used_rows(rows.drop_last())
    }
}

/// The largest used width among the rows.
pub open spec fn widest(rows: Seq<Seq<Seq<char>>>) -> nat
    decreases rows.len(),
{
    if rows.len() == 0 {
        0
    } else {
        let w = used_width(rows.last());
        let p = widest(rows.drop_last());
        if w > p {
            w
        } else {
            p
        }
    }
}

/// The first `n` values of each row (or all of a shorter row).
pub open spec fn clip(rows: Seq<Seq<Seq<char>>>, n: nat) -> Seq<Seq<Seq<char>>> {
    Seq::new(
        rows.len(),
        |i: int|
            if n <= rows[i].len() {
                rows[i].take(n as int)
            } else {
                rows[i]
            },
    )
}

/// Used width never exceeds the row's length.
pub proof fn lemma_used_width_bound(row: Seq<Seq<char>>)
    ensures
        used_width(row) <= row.len(),
    decreases row.len(),
{
    if row.len() > 0 {
        lemma_used_width_bound(row.drop_last());
    }
}

/// The widest row is no wider than `n` when every row has at most `n` values.
pub proof fn lemma_widest_bound(rows: Seq<Seq<Seq<char>>>, n: nat)
    requires
        forall|i: int| 0 <= i < rows.len() ==> (#[trigger] rows[i]).len() <= n,
    ensures
        widest(rows) <= n,
    decreases rows.len(),
{
    if rows.len() > 0 {
        lemma_used_width_bound(rows.last());
        assert forall|i: int| 0 <= i < rows.drop_last().len() implies (
        #[trigger] rows.drop_last()[i]).len() <= n by {
            assert(rows.drop_last()[i] == rows[i]);
        }
        lemma_widest_bound(rows.drop_last(), n);
    }
}

/// Appends one record, its fields encoded and separated by the delimiter.
pub fn write_record(out: &mut String, values: &Vec<String>, dialect: CsvDialect)
    ensures
        final(out)@ == old(out)@ + record_text(texts(values@), dialect),
{
    let ghost start = out@;
    let ghost all = texts(values@);
    let mut i: usize = 0;
    while i < values.len()
        invariant
            i <= values@.len(),
            all == texts(values@),
            out@ == start + record_text(all.take(i as int), dialect),
        decreases values@.len() - i,
    {
        proof {
            assert(all.take(i + 1).drop_last() =~= all.take(i as int));
            assert(all.take(i + 1).last() == values@[i as int]@);
        }
        let ghost before = out@;
        if i > 0 {
            push_char(out, dialect.delimiter as char);
        }
        let field = encode_field(values[i].as_str(), dialect);
        push_str(out, field.as_str());
        proof {
            let sep = if i + 1 > 1 {
                seq![dialect.delimiter as char]
            } else {
                Seq::<char>::empty()
            };
            assert(out@ =~= before + sep + spec_encode_field(values@[i as int]@, dialect));
            assert(record_text(all.take(i + 1), dialect) == record_text(all.take(i as int), dialect)
                + sep + spec_encode_field(values@[i as int]@, dialect));
        }
        i += 1;
    }
    proof {
        assert(all.take(i as int) =~= all);
    }
}

/// Whether some value of the row is not empty.
fn row_is_filled(row: &Vec<String>) -> (r: bool)
    ensures
        r == filled(texts(row@)),
{
    let mut i: usize = 0;
    while i < row.len()
        invariant
            i <= row@.len(),
            forall|j: int| 0 <= j < i ==> row@[j]@.len() == 0,
        decreases row@.len() - i,
    {
        if !row[i].as_str().is_empty() {
            assert(texts(row@)[i as int].len() > 0);
            return true;
        }
        i += 1;
    }
    proof {
        assert forall|j: int| 0 <= j < texts(row@).len() implies !((#[trigger] texts(row@)[j]).len()
            > 0) by {
            assert(texts(row@)[j] == row@[j]@);
        }
    }
    false
}

/// Length of the row up to and including its last non-empty value.
pub fn row_used_width(row: &Vec<String>) -> (n: usize)
    ensures
        n == used_width(texts(row@)),
{
    let ghost t = texts(row@);
    let mut n = row.len();
    proof {
        assert(t.take(n as int) =~= t);
    }
    while n > 0
        invariant
            n <= row@.len(),
            t == texts(row@),
            used_width(t.take(n as int)) == used_width(t),
        decreases n,
    {
        proof {
            assert(t.take(n as int).drop_last() =~= t.take(n - 1));
            assert(t.take(n as int).last() == row@[n - 1]@);
        }
        if !row[n - 1].as_str().is_empty() {
            return n;
        }
        n -= 1;
    }
    0
}

/// Number of rows up to and including the last row with a non-empty value.
pub fn retained_row_count(rows: &Vec<Vec<String>>) -> (n: usize)
    ensures
        n == used_rows(grid(rows@)),
{
    let ghost g = grid(rows@);
    let mut n = rows.len();
    proof {
        assert(g.take(n as int) =~= g);
    }
    while n > 0
        invariant
            n <= rows@.len(),
            g == grid(rows@),
            used_rows(g.take(n as int)) == used_rows(g),
        decreases n,
    {
        proof {
            assert(g.take(n as int).drop_last() =~= g.take(n - 1));
            assert(g.take(n as int).last() == texts(rows@[n - 1]@));
        }
        if row_is_filled(&rows[n - 1]) {
            return n;
        }
        n -= 1;
    }
    0
}

/// The largest used width among the first `count` rows.
pub fn widest_row(rows: &Vec<Vec<String>>, count: usize) -> (n: usize)
    requires
        count <= rows@.len(),
    ensures
        n == widest(grid(rows@).take(count as int)),
{
    let ghost g = grid(rows@);
    let mut best: usize = 0;
    let mut i: usize = 0;
    while i < count
        invariant
            i <= count <= rows@.len(),
            g == grid(rows@),
            best == widest(g.take(i as int)),
        decreases count - i,
    {
        proof {
            assert(g.take(i + 1).drop_last() =~= g.take(i as int));
            assert(g.take(i + 1).last() == texts(rows@[i as int]@));
        }
        let w = row_used_width(&rows[i]);
        if w > best {
            best = w;
        }
        i += 1;
    }
    best
}

/// The first `n` values of the row.
pub fn trimmed_record(row: &Vec<String>, n: usize) -> (r: Vec<String>)
    ensures
        texts(r@) == if n <= row@.len() {
            texts(row@).take(n as int)
        } else {
            texts(row@)
        },
{
    let mut out: Vec<String> = Vec::new();
    let mut i: usize = 0;
    while i < n && i < row.len()
        invariant
            i <= row@.len(),
            i <= n,
            out@.len() == i,
            forall|j: int| 0 <= j < i ==> (#[trigger] out@[j])@ == row@[j]@,
        decreases row@.len() - i,
    {
        out.push(row[i].clone());
        i += 1;
    }
    proof {
        if n <= row@.len() {
            assert(texts(out@) =~= texts(row@).take(n as int));
        } else {
            assert(texts(out@) =~= texts(row@));
        }
    }
    out
}

/// Appends records, each written as a record and separated by the line ending.
pub fn write_records(out: &mut String, records: &Vec<Vec<String>>, dialect: CsvDialect)
    ensures
        final(out)@ == old(out)@ + records_text(grid(records@), dialect),
{
    let ghost start = out@;
    let ghost g = grid(records@);
    let eol = dialect.line_ending.as_str();
    let mut i: usize = 0;
    while i < records.len()
        invariant
            i <= records@.len(),
            g == grid(records@),
            eol@ == line_ending_chars(dialect.line_ending),
            out@ == start + records_text(g.take(i as int), dialect),
        decreases records@.len() - i,
    {
        proof {
            assert(g.take(i + 1).drop_last() =~= g.take(i as int));
            assert(g.take(i + 1).last() == texts(records@[i as int]@));
        }
        let ghost before = out@;
        if i > 0 {
            push_str(out, eol);
        }
        let ghost mid = out@;
        write_record(out, &records[i], dialect);
        proof {
            let sep = if i + 1 > 1 {
                line_ending_chars(dialect.line_ending)
            } else {
                Seq::<char>::empty()
            };
            assert(mid == before + sep);
            assert(out@ =~= before + sep + record_text(texts(records@[i as int]@), dialect));
        }
        i += 1;
    }
    proof {
        assert(g.take(i as int) =~= g);
    }
}

} // verus!
