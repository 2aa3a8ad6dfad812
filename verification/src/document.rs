use crate::dialect::{detect_dialect, spec_dialect, CsvDialect, Encoding};
use crate::error::CsvError;
use crate::live::{
    contains_usize, count_live, keep_live, lemma_keep_live_insert, lemma_keep_live_members,
    lemma_keep_live_remove, lemma_keep_live_step, lemma_keep_live_unique, lemma_live_position, lemma_push_to_set,
    lemma_unique_below_len, live_before, nth_live,
    position_live, position_usize,
};
use crate::parser::{
    decode_field, parse_records, records_in_bounds, records_view, spec_decode_field, spec_records,
    RecordIndex, RecordView, record_in_bounds, fields_in_bounds,
};
use crate::rules::{
    clone_rule, clone_rules, legacy_filter_rule, rule_holds, rule_matches_value, rules_view,
    spec_legacy_rule, ColumnFilter, FilterRule, RuleView, SortDirection, SortKey,
};
use crate::rules::{natural_order};
use crate::text::{int_order, is_number_reader, Comparison};
use crate::writer::{
    clip, grid, records_text, retained_row_count,
    row_used_width, texts, trimmed_record, used_rows, used_width, widest, widest_row, write_records,
};
use rayon::slice::ParallelSliceMut;
use vstd::prelude::*;

verus! {

/// A cell position in storage terms: data row (or inserted row) and real column.
#[derive(Debug, Clone, Copy, PartialEq, Eq, Hash, Structural)]
pub struct CellCoord {
    pub row: usize,
    pub column: usize,
}

/// How to read a source: header row, leading rows to keep aside, separator override.
#[derive(Debug, Clone, Copy, PartialEq, Eq, Structural)]
pub struct OpenOptions {
    pub first_row_is_header: bool,
    pub skip_rows: usize,
    pub delimiter: Option<u8>,
}

impl Default for OpenOptions {
    fn default() -> (o: Self)
        ensures
            o.first_row_is_header,
            o.skip_rows == 0,
            o.delimiter is None,
    {
        Self { first_row_is_header: true, skip_rows: 0, delimiter: None }
    }
}

/// Counts of the pending changes.
#[derive(Debug, Clone, Copy, Default, PartialEq, Eq, Structural)]
pub struct EditStats {
    pub edited_cells: usize,
    pub inserted_rows: usize,
    pub deleted_rows: usize,
    pub inserted_columns: usize,
    pub deleted_columns: usize,
}

/// One edited cell.
pub struct CellEdit {
    pub coord: CellCoord,
    pub value: String,
}

/// An edited cell as plain values.
pub struct EditView {
    pub coord: CellCoord,
    pub value: Seq<char>,
}

impl View for CellEdit {
    type V = EditView;

    open spec fn view(&self) -> EditView {
        EditView { coord: self.coord, value: self.value@ }
    }
}

/// The edits as plain values.
pub open spec fn edit_views(v: Seq<CellEdit>) -> Seq<EditView> {
    v.map_values(|e: CellEdit| e@)
}

/// The text that the last edit of `c` in `edits` wrote, if any.
pub open spec fn edit_lookup(edits: Seq<EditView>, c: CellCoord) -> Option<Seq<char>>
    decreases edits.len(),
{
    if edits.len() == 0 {
        None
    } else if edits.last().coord == c {
        Some(edits.last().value)
    } else {
        edit_lookup(edits.drop_last(), c)
    }
}

/// No cell is edited twice in the list.
pub open spec fn edits_unique(edits: Seq<EditView>) -> bool {
    forall|i: int, j: int|
        0 <= i < j < edits.len() ==> (#[trigger] edits[i]).coord != (#[trigger] edits[j]).coord
}

/// The texts of the fields of a record.
pub open spec fn record_texts(b: Seq<u8>, r: RecordView, d: CsvDialect) -> Seq<Seq<char>> {
    Seq::new(r.fields.len(), |i: int| spec_decode_field(b, r.fields[i], d))
}

/// The largest field count of the records.
pub open spec fn max_fields(records: Seq<RecordView>) -> nat
    decreases records.len(),
{
    if records.len() == 0 {
        0
    } else {
        let m = max_fields(records.drop_last());
        if records.last().fields.len() > m {
            records.last().fields.len()
        } else {
            m
        }
    }
}

/// `x` is at position `i` of `s` and nowhere before.
pub open spec fn is_first_index(s: Seq<usize>, x: usize, i: int) -> bool {
    0 <= i < s.len() && s[i] == x && forall|j: int| 0 <= j < i ==> s[j] != x
}

/// The integers `lo..hi`.
pub open spec fn range_seq(lo: int, hi: int) -> Seq<usize> {
    Seq::new(if hi > lo { (hi - lo) as nat } else { 0 }, |i: int| (lo + i) as usize)
}

/// A saved copy of everything that editing changes.
pub struct CsvDocumentSnapshot {
    view_rows: Vec<usize>,
    column_order: Vec<usize>,
    inserted_rows: Vec<Vec<String>>,
    inserted_columns: Vec<Vec<String>>,
    deleted_rows: Vec<usize>,
    deleted_columns: Vec<usize>,
    edits: Vec<CellEdit>,
    filters: Vec<FilterRule>,
    sort_keys: Vec<SortKey>,
    dirty: bool,
}

/// A CSV source with an editing overlay on top.
///
/// The source bytes are indexed once; edits, inserted and deleted rows and
/// columns, column order, filters and sort keys are kept beside them, and cells
/// are read through the overlay.
pub struct CsvDocument {
    path: Option<String>,
    source: Vec<u8>,
    dialect: CsvDialect,
    records: Vec<RecordIndex>,
    skipped_rows: Vec<Vec<String>>,
    data_rows: Vec<usize>,
    view_rows: Vec<usize>,
    headers: Option<Vec<String>>,
    column_order: Vec<usize>,
    inserted_rows: Vec<Vec<String>>,
    inserted_columns: Vec<Vec<String>>,
    deleted_rows: Vec<usize>,
    deleted_columns: Vec<usize>,
    edits: Vec<CellEdit>,
    filters: Vec<FilterRule>,
    sort_keys: Vec<SortKey>,
    dirty: bool,
}

impl CsvDocument {
    /// The document is consistent: records lie inside the source, sets hold no
    /// duplicates, each cell is edited at most once, and counts leave room to grow.
    pub closed spec fn wf(self) -> bool {
        &&& records_in_bounds(records_view(self.records@), self.source@.len() as int)
        &&& self.view_rows@.no_duplicates()
        &&& self.column_order@.no_duplicates()
        &&& forall|k: int|
            0 <= k < self.column_order@.len() ==> #[trigger] self.column_order@[k]
                < self.column_order@.len() + self.inserted_columns@.len()
        &&& forall|k: int|
            0 <= k < self.deleted_columns@.len() ==> #[trigger] self.deleted_columns@[k]
                < self.column_order@.len() + self.inserted_columns@.len()
        &&& self.deleted_rows@.no_duplicates()
        &&& self.deleted_columns@.no_duplicates()
        &&& edits_unique(edit_views(self.edits@))
        &&& self.data_rows@.len() + self.inserted_rows@.len() <= usize::MAX
        &&& forall|k: int|
            0 <= k < self.view_rows@.len() ==> #[trigger] self.view_rows@[k] < self.data_rows@.len()
        &&& self.view_rows@.len() <= self.data_rows@.len()
        &&& self.column_order@.len() + self.inserted_columns@.len() <= usize::MAX
        &&& self.skipped_rows@.len() <= usize::MAX
        &&& self.headers is Some ==> self.skipped_rows@.len() < usize::MAX
        &&& self.records@.len() <= usize::MAX
        &&& self.dialect.quote == 34u8
    }

    pub closed spec fn source(self) -> Seq<u8> {
        self.source@
    }

    pub closed spec fn spec_dialect(self) -> CsvDialect {
        self.dialect
    }

    pub closed spec fn spec_path(self) -> Option<Seq<char>> {
        match self.path {
            Some(p) => Some(p@),
            None => None,
        }
    }

    pub closed spec fn spec_dirty(self) -> bool {
        self.dirty
    }

    /// The record index of the source.
    pub closed spec fn record_list(self) -> Seq<RecordView> {
        records_view(self.records@)
    }

    /// Record number of each data row.
    pub closed spec fn data_record(self) -> Seq<usize> {
        self.data_rows@
    }

    pub closed spec fn spec_headers(self) -> Option<Seq<Seq<char>>> {
        match self.headers {
            Some(h) => Some(texts(h@)),
            None => None,
        }
    }

    pub closed spec fn skipped(self) -> Seq<Seq<Seq<char>>> {
        grid(self.skipped_rows@)
    }

    pub closed spec fn deleted_row_set(self) -> Set<usize> {
        self.deleted_rows@.to_set()
    }

    pub closed spec fn deleted_column_set(self) -> Set<usize> {
        self.deleted_columns@.to_set()
    }

    /// Data rows in display order, deleted rows left out.
    pub closed spec fn visible_rows(self) -> Seq<usize> {
        keep_live(self.view_rows@, self.deleted_rows@.to_set())
    }

    /// Real columns in display order, deleted columns left out.
    pub closed spec fn visible_columns(self) -> Seq<usize> {
        keep_live(self.column_order@, self.deleted_columns@.to_set())
    }

    /// Texts of the rows added after the source rows.
    pub closed spec fn inserted(self) -> Seq<Seq<Seq<char>>> {
        grid(self.inserted_rows@)
    }

    /// All real columns in display order, deleted ones included.
    pub closed spec fn column_order_list(self) -> Seq<usize> {
        self.column_order@
    }

    pub closed spec fn inserted_column_count(self) -> nat {
        self.inserted_columns@.len()
    }

    pub closed spec fn edit_list(self) -> Seq<EditView> {
        edit_views(self.edits@)
    }

    /// Filter rules, by real column.
    pub closed spec fn filter_list(self) -> Seq<RuleView> {
        rules_view(self.filters@)
    }

    /// Sort keys, by real column.
    pub closed spec fn sort_key_list(self) -> Seq<SortKey> {
        self.sort_keys@
    }

    pub open spec fn spec_row_count(self) -> nat {
        self.visible_rows().len() + self.inserted().len()
    }

    pub open spec fn spec_column_count(self) -> nat {
        self.visible_columns().len() + self.inserted_column_count()
    }

    /// Real column shown at a display position.
    pub open spec fn spec_real_column(self, column: int) -> Option<usize> {
        if 0 <= column < self.visible_columns().len() {
            Some(self.visible_columns()[column])
        } else {
            None
        }
    }

    /// Display position of a real column (its first position).
    pub open spec fn spec_visible_column(self, real_col: usize) -> Option<usize> {
        if self.visible_columns().contains(real_col) {
            Some((choose|i: int| is_first_index(self.visible_columns(), real_col, i)) as usize)
        } else {
            None
        }
    }

    /// Storage row of a display row: its data row, or past the data rows for inserted rows.
    pub open spec fn spec_storage_row(self, row: int) -> Option<usize> {
        let vis = self.visible_rows().len();
        if 0 <= row < vis {
            Some(self.visible_rows()[row])
        } else if vis <= row < vis + self.inserted().len() {
            Some((self.data_record().len() + (row - vis)) as usize)
        } else {
            None
        }
    }

    /// The source text of a data row's cell in a real column (edits not applied).
    pub open spec fn source_value(self, data_row: int, column: int) -> Seq<char> {
        if 0 <= data_row < self.data_record().len() && self.data_record()[data_row]
            < self.record_list().len() && 0 <= column < self.record_list()[self.data_record()[data_row] as int].fields.len() {
            spec_decode_field(
                self.source(),
                self.record_list()[self.data_record()[data_row] as int].fields[column],
                self.spec_dialect(),
            )
        } else {
            Seq::empty()
        }
    }

    /// The text shown in a cell, or none outside the table.
    pub open spec fn spec_cell(self, row: int, column: int) -> Option<Seq<char>> {
        match self.spec_real_column(column) {
            None => None,
            Some(rc) => match self.spec_storage_row(row) {
                None => None,
                Some(sr) => match edit_lookup(self.edit_list(), CellCoord { row: sr, column: rc }) {
                    Some(v) => Some(v),
                    None => {
                        let vis = self.visible_rows().len();
                        if row >= vis {
                            let ins = self.inserted()[row - vis];
                            if rc < ins.len() {
                                Some(ins[rc as int])
                            } else {
                                Some(Seq::empty())
                            }
                        } else {
                            let dr = self.visible_rows()[row];
                            if dr < self.data_record().len() && self.data_record()[dr as int]
                                < self.record_list().len() {
                                Some(self.source_value(dr as int, rc as int))
                            } else {
                                None
                            }
                        }
                    },
                },
            },
        }
    }
}

/// The rows shown, in display order: a shown source row by its data row, an
/// added row by its texts.
pub open spec fn row_slots(doc: CsvDocument) -> Seq<Result<usize, Seq<Seq<char>>>> {
    doc.visible_rows().map_values(|r: usize| Ok::<usize, Seq<Seq<char>>>(r)) + doc.inserted().map_values(
        |v: Seq<Seq<char>>| Err::<usize, Seq<Seq<char>>>(v),
    )
}

/// Two documents read the same source the same way: same bytes, dialect,
/// records, data rows, header and kept-aside rows.
pub open spec fn same_base(a: CsvDocument, b: CsvDocument) -> bool {
    &&& a.source() == b.source()
    &&& a.spec_dialect() == b.spec_dialect()
    &&& a.record_list() == b.record_list()
    &&& a.data_record() == b.data_record()
    &&& a.spec_headers() == b.spec_headers()
    &&& a.skipped() == b.skipped()
}

/// Two documents show the same overlay over the same source.
pub open spec fn same_overlay(a: CsvDocument, b: CsvDocument) -> bool {
    &&& a.source() == b.source()
    &&& a.spec_dialect() == b.spec_dialect()
    &&& a.record_list() == b.record_list()
    &&& a.data_record() == b.data_record()
    &&& a.spec_headers() == b.spec_headers()
    &&& a.skipped() == b.skipped()
    &&& a.visible_rows() == b.visible_rows()
    &&& a.visible_columns() == b.visible_columns()
    &&& a.column_order_list() == b.column_order_list()
    &&& a.inserted() == b.inserted()
    &&& a.inserted_column_count() == b.inserted_column_count()
    &&& a.edit_list() == b.edit_list()
    &&& a.deleted_row_set() == b.deleted_row_set()
    &&& a.deleted_column_set() == b.deleted_column_set()
    &&& a.filter_list() == b.filter_list()
    &&& a.sort_key_list() == b.sort_key_list()
}

/// The dialect a document reads its source with.
pub open spec fn opened_dialect(bytes: Seq<u8>, options: OpenOptions) -> CsvDialect {
    match options.delimiter {
        Some(d) => CsvDialect { delimiter: d, ..spec_dialect(bytes) },
        None => spec_dialect(bytes),
    }
}

/// The records after the first `skip`.
pub open spec fn records_after(recs: Seq<RecordView>, skip: int) -> Seq<RecordView> {
    if skip < recs.len() {
        recs.skip(skip)
    } else {
        Seq::empty()
    }
}

/// Index of the first data record.
pub open spec fn first_data_record(options: OpenOptions) -> int {
    options.skip_rows + if options.first_row_is_header {
        1int
    } else {
        0int
    }
}

/// The table a document reads from `bytes`: source, dialect, index, rows
/// kept aside, header, columns, and no pending change.
pub open spec fn opened_table(doc: CsvDocument, bytes: Seq<u8>, options: OpenOptions) -> bool {
    let d = opened_dialect(bytes, options);
    let recs = spec_records(bytes, d);
    let n = recs.len() as int;
    let skip = options.skip_rows as int;
    &&& doc.wf()
    &&& doc.source() == bytes
    &&& doc.spec_dialect() == d
    &&& doc.record_list() == recs
    &&& doc.skipped() == Seq::new(
        if skip < n {
            skip as nat
        } else {
            n as nat
        },
        |i: int| record_texts(bytes, recs[i], d),
    )
    &&& doc.data_record() == range_seq(first_data_record(options), n)
    &&& doc.spec_headers() == if options.first_row_is_header && skip < n {
        Some(record_texts(bytes, recs[skip], d))
    } else {
        None
    }
    &&& doc.visible_columns() == range_seq(0, opened_width(bytes, options) as int)
    &&& doc.column_order_list() == range_seq(0, opened_width(bytes, options) as int)
    &&& doc.inserted().len() == 0
    &&& doc.inserted_column_count() == 0
    &&& doc.edit_list().len() == 0
    &&& doc.deleted_row_set().is_empty()
    &&& doc.deleted_column_set().is_empty()
    &&& !doc.spec_dirty()
}

/// Number of columns read from `bytes`: the most fields of a record from the
/// header row on.
pub open spec fn opened_width(bytes: Seq<u8>, options: OpenOptions) -> nat {
    let d = opened_dialect(bytes, options);
    max_fields(records_after(spec_records(bytes, d), options.skip_rows as int))
}

/// The state of a document freshly read from `bytes`.
pub open spec fn opened(doc: CsvDocument, bytes: Seq<u8>, options: OpenOptions) -> bool {
    &&& opened_table(doc, bytes, options)
    &&& doc.visible_rows() == range_seq(0, doc.data_record().len() as int)
    &&& doc.filter_list().len() == 0
    &&& doc.sort_key_list().len() == 0
}

/// The texts of a record's fields.
fn read_record(bytes: &[u8], record: &RecordIndex, dialect: CsvDialect) -> (r: Vec<String>)
    requires
        record_in_bounds(record@, bytes@.len() as int),
    ensures
        texts(r@) == record_texts(bytes@, record@, dialect),
{
    let mut out: Vec<String> = Vec::new();
    let mut i: usize = 0;
    while i < record.fields.len()
        invariant
            i <= record.fields@.len(),
            record_in_bounds(record@, bytes@.len() as int),
            out@.len() == i,
            forall|j: int|
                0 <= j < i ==> (#[trigger] out@[j])@ == spec_decode_field(
                    bytes@,
                    record.fields@[j],
                    dialect,
                ),
        decreases record.fields@.len() - i,
    {
        assert(record.fields@[i as int].start <= record.fields@[i as int].end <= bytes@.len());
        out.push(decode_field(bytes, record.fields[i], dialect));
        i += 1;
    }
    assert(texts(out@) =~= record_texts(bytes@, record@, dialect));
    out
}

/// `lo..hi` as a vector.
fn range_vec(lo: usize, hi: usize) -> (r: Vec<usize>)
    ensures
        r@ == range_seq(lo as int, hi as int),
{
    let mut v: Vec<usize> = Vec::new();
    let mut k = lo;
    while k < hi
        invariant
            lo <= k <= hi || (hi < lo && k == lo),
            v@ == range_seq(lo as int, k as int),
        decreases hi - k,
    {
        v.push(k);
        k += 1;
        assert(v@ =~= range_seq(lo as int, k as int));
    }
    assert(v@ =~= range_seq(lo as int, hi as int));
    v
}

proof fn lemma_keep_live_nothing_dead(s: Seq<usize>)
    ensures
        keep_live(s, Set::empty()) == s,
    decreases s.len(),
{
    if s.len() > 0 {
        lemma_keep_live_nothing_dead(s.drop_last());
        assert(s.drop_last().push(s.last()) =~= s);
    }
}

impl CsvDocument {
    /// Reads a document from bytes in memory.
    ///
    /// The dialect is detected (the options may override the separator), the
    /// records are indexed, `skip_rows` leading records are kept aside, and the
    /// next one becomes the header row if asked. UTF-16 sources are refused.
    pub fn from_bytes(bytes: Vec<u8>, options: OpenOptions) -> (r: Result<Self, CsvError>)
        requires
            options.first_row_is_header ==> options.skip_rows < usize::MAX,
        ensures
            (spec_dialect(bytes@).encoding == Encoding::Utf16Le || spec_dialect(bytes@).encoding
                == Encoding::Utf16Be) <==> r is Err,
            r matches Err(e) ==> e is UnsupportedEncoding,
            r matches Ok(doc) ==> opened(doc, bytes@, options) && doc.spec_path() is None,
    {
        Self::from_source(None, bytes, options)
    }

    /// Reads a document from bytes that came from `path`.
    pub fn from_source(path: Option<String>, bytes: Vec<u8>, options: OpenOptions) -> (r: Result<
        Self,
        CsvError,
    >)
        requires
            options.first_row_is_header ==> options.skip_rows < usize::MAX,
        ensures
            (spec_dialect(bytes@).encoding == Encoding::Utf16Le || spec_dialect(bytes@).encoding
                == Encoding::Utf16Be) <==> r is Err,
            r matches Err(e) ==> e is UnsupportedEncoding,
            r matches Ok(doc) ==> opened(doc, bytes@, options) && doc.spec_path() == match path {
                Some(p) => Some(p@),
                None => None::<Seq<char>>,
            },
    {
        let mut dialect = detect_dialect(bytes.as_slice());
        match options.delimiter {
            Some(d) => {
                dialect.delimiter = d;
            },
            None => {},
        }
        assert(dialect == opened_dialect(bytes@, options));
        let records = match parse_records(bytes.as_slice(), dialect) {
            Ok(r) => r,
            Err(e) => {
                return Err(e);
            },
        };
        let ghost recs = records_view(records@);
        let n = records.len();
        let header_rows: usize = if options.first_row_is_header {
            1
        } else {
            0
        };
        let first = options.skip_rows + header_rows;
        let mut skipped_rows: Vec<Vec<String>> = Vec::new();
        let mut i: usize = 0;
        while i < options.skip_rows && i < n
            invariant
                n == records@.len(),
                recs == records_view(records@),
                records_in_bounds(recs, bytes@.len() as int),
                i <= n,
                i <= options.skip_rows,
                skipped_rows@.len() == i,
                forall|j: int|
                    0 <= j < i ==> texts((#[trigger] skipped_rows@[j])@) == record_texts(
                        bytes@,
                        recs[j],
                        dialect,
                    ),
            decreases n - i,
        {
            assert(record_in_bounds(recs[i as int], bytes@.len() as int));
            skipped_rows.push(read_record(bytes.as_slice(), &records[i], dialect));
            i += 1;
        }
        let data_rows = range_vec(first, n);
        let view_rows = range_vec(0, data_rows.len());
        let headers = if options.first_row_is_header && options.skip_rows < n {
            assert(record_in_bounds(recs[options.skip_rows as int], bytes@.len() as int));
            Some(read_record(bytes.as_slice(), &records[options.skip_rows], dialect))
        } else {
            None
        };
        let mut column_count: usize = 0;
        let start: usize = if options.skip_rows < n {
            options.skip_rows
        } else {
            n
        };
        let mut k: usize = start;
        let ghost tail = records_after(recs, options.skip_rows as int);
        assert(tail.len() == n - start);
        assert(tail.take(0) =~= Seq::<RecordView>::empty());
        while k < n
            invariant
                n == records@.len(),
                recs == records_view(records@),
                start <= k <= n,
                tail == records_after(recs, options.skip_rows as int),
                tail.len() == n - start,
                forall|j: int| 0 <= j < tail.len() ==> #[trigger] tail[j] == recs[start + j],
                column_count == max_fields(tail.take(k - start)),
            decreases n - k,
        {
            let f = records[k].fields.len();
            proof {
                assert(tail.take(k + 1 - start).drop_last() =~= tail.take(k - start));
                assert(tail.take(k + 1 - start).last() == tail[k - start]);
            }
            if f > column_count {
                column_count = f;
            }
            k += 1;
        }
        proof {
            assert(tail.take(n - start) =~= tail);
        }
        let column_order = range_vec(0, column_count);
        let doc = CsvDocument {
            path,
            source: bytes,
            dialect,
            records,
            skipped_rows,
            data_rows,
            view_rows,
            headers,
            column_order,
            inserted_rows: Vec::new(),
            inserted_columns: Vec::new(),
            deleted_rows: Vec::new(),
            deleted_columns: Vec::new(),
            edits: Vec::new(),
            filters: Vec::new(),
            sort_keys: Vec::new(),
            dirty: false,
        };
        proof {
            lemma_keep_live_nothing_dead(doc.view_rows@);
            lemma_keep_live_nothing_dead(doc.column_order@);
            assert(doc.deleted_rows@.to_set() =~= Set::empty());
            assert(doc.deleted_columns@.to_set() =~= Set::empty());
            assert forall|j: int| 0 <= j < doc.skipped_rows@.len() implies #[trigger] grid(
                doc.skipped_rows@,
            )[j] == record_texts(bytes@, recs[j], dialect) by {
                assert(texts(doc.skipped_rows@[j]@) == record_texts(bytes@, recs[j], dialect));
            }
            assert(doc.skipped() =~= Seq::new(
                if (options.skip_rows as int) < n {
                    options.skip_rows as nat
                } else {
                    n as nat
                },
                |i: int| record_texts(bytes@, recs[i], dialect),
            ));
            assert(rules_view(doc.filters@) =~= Seq::empty());
            assert(grid(doc.inserted_rows@) =~= Seq::empty());
        }
        Ok(doc)
    }

    /// Where the document was read from or last saved to.
    pub fn path(&self) -> (r: Option<&str>)
        ensures
            match r {
                Some(p) => self.spec_path() == Some(p@),
                None => self.spec_path() is None,
            },
    {
        match &self.path {
            Some(p) => Some(p.as_str()),
            None => None,
        }
    }

    /// The dialect the source is read and written with.
    pub fn dialect(&self) -> (d: CsvDialect)
        ensures
            d == self.spec_dialect(),
    {
        self.dialect
    }

    /// Whether there are unsaved changes.
    pub fn is_dirty(&self) -> (b: bool)
        ensures
            b == self.spec_dirty(),
    {
        self.dirty
    }

    /// Marks the document as changed or saved.
    pub fn set_dirty(&mut self, dirty: bool)
        requires
            old(self).wf(),
        ensures
            final(self).wf(),
            final(self).spec_dirty() == dirty,
            final(self).spec_path() == old(self).spec_path(),
            same_overlay(*final(self), *old(self)),
    {
        self.dirty = dirty;
    }

    /// The header texts by real column, when the document has a header row.
    pub fn headers(&self) -> (r: Option<&[String]>)
        ensures
            match r {
                Some(h) => self.spec_headers() == Some(texts(h@)),
                None => self.spec_headers() is None,
            },
    {
        match &self.headers {
            Some(h) => Some(h.as_slice()),
            None => None,
        }
    }

    /// The header text of the column shown at `column`.
    pub open spec fn spec_header(self, column: int) -> Option<Seq<char>> {
        match self.spec_real_column(column) {
            Some(rc) => match self.spec_headers() {
                Some(h) => if rc < h.len() {
                    Some(h[rc as int])
                } else {
                    None
                },
                None => None,
            },
            None => None,
        }
    }

    /// The header of the column shown at `column`.
    pub fn header(&self, column: usize) -> (r: Option<&str>)
        ensures
            match r {
                Some(t) => self.spec_header(column as int) == Some(t@),
                None => self.spec_header(column as int) is None,
            },
    {
        let rc = match self.real_column(column) {
            Some(c) => c,
            None => {
                return None;
            },
        };
        match &self.headers {
            Some(h) => if rc < h.len() {
                Some(h[rc].as_str())
            } else {
                None
            },
            None => None,
        }
    }

    /// Number of rows shown: visible source rows, then inserted rows.
    pub fn row_count(&self) -> (n: usize)
        requires
            self.wf(),
        ensures
            n == self.spec_row_count(),
    {
        proof {
            lemma_keep_live_members(self.view_rows@, self.deleted_rows@.to_set());
        }
        self.visible_source_row_count() + self.inserted_rows.len()
    }

    /// Number of columns: visible columns of the column order, plus one per inserted column.
    pub fn column_count(&self) -> (n: usize)
        requires
            self.wf(),
        ensures
            n == self.spec_column_count(),
    {
        proof {
            lemma_keep_live_members(self.column_order@, self.deleted_columns@.to_set());
        }
        count_live(&self.column_order, &self.deleted_columns) + self.inserted_columns.len()
    }

    /// Counts of edited cells and of inserted and deleted rows and columns.
    pub fn edit_stats(&self) -> (s: EditStats)
        requires
            self.wf(),
        ensures
            s.edited_cells == self.edit_list().len(),
            s.inserted_rows == self.inserted().len(),
            s.deleted_rows == self.deleted_row_set().len(),
            s.inserted_columns == self.inserted_column_count(),
            s.deleted_columns == self.deleted_column_set().len(),
    {
        proof {
            self.deleted_rows@.unique_seq_to_set();
            self.deleted_columns@.unique_seq_to_set();
        }
        EditStats {
            edited_cells: self.edits.len(),
            inserted_rows: self.inserted_rows.len(),
            deleted_rows: self.deleted_rows.len(),
            inserted_columns: self.inserted_columns.len(),
            deleted_columns: self.deleted_columns.len(),
        }
    }

    /// Number of source rows shown.
    fn visible_source_row_count(&self) -> (n: usize)
        ensures
            n == self.visible_rows().len(),
    {
        count_live(&self.view_rows, &self.deleted_rows)
    }

    /// Data row shown at a display position among the source rows.
    fn visible_data_row_at(&self, visible_row: usize) -> (r: Option<usize>)
        ensures
            visible_row < self.visible_rows().len() ==> r == Some(
                self.visible_rows()[visible_row as int],
            ),
            visible_row >= self.visible_rows().len() ==> r is None,
    {
        nth_live(&self.view_rows, &self.deleted_rows, visible_row)
    }

    /// Storage row of a display row.
    fn storage_row(&self, visible_row: usize) -> (r: Option<usize>)
        requires
            self.wf(),
        ensures
            r == self.spec_storage_row(visible_row as int),
    {
        let vis = self.visible_source_row_count();
        if visible_row < vis {
            return self.visible_data_row_at(visible_row);
        }
        let inserted = visible_row - vis;
        if inserted < self.inserted_rows.len() {
            Some(self.data_rows.len() + inserted)
        } else {
            None
        }
    }

    /// Real column shown at a display position.
    fn real_column(&self, visible_column: usize) -> (r: Option<usize>)
        ensures
            r == self.spec_real_column(visible_column as int),
    {
        nth_live(&self.column_order, &self.deleted_columns, visible_column)
    }

    /// Display position of a real column.
    fn visible_column(&self, real_col: usize) -> (r: Option<usize>)
        ensures
            r == self.spec_visible_column(real_col),
    {
        let r = position_live(&self.column_order, &self.deleted_columns, real_col);
        proof {
            let vis = self.visible_columns();
            match r {
                Some(p) => {
                    assert(is_first_index(vis, real_col, p as int));
                    assert(vis.contains(real_col));
                    let c = choose|i: int| is_first_index(vis, real_col, i);
                    assert(is_first_index(vis, real_col, c));
                    if c < p {
                        assert(vis[c] != real_col);
                    } else if p < c {
                        assert(vis[p as int] != real_col);
                    }
                },
                None => {},
            }
        }
        r
    }

    /// Source text of a data row's cell in a real column.
    fn cell_from_data_row(&self, data_row: usize, column: usize) -> (s: String)
        requires
            self.wf(),
        ensures
            s@ == self.source_value(data_row as int, column as int),
    {
        if data_row >= self.data_rows.len() {
            return String::new();
        }
        let record_idx = self.data_rows[data_row];
        if record_idx >= self.records.len() {
            return String::new();
        }
        let record = &self.records[record_idx];
        if column >= record.fields.len() {
            return String::new();
        }
        proof {
            assert(record_in_bounds(records_view(self.records@)[record_idx as int], self.source@.len() as int));
            assert(records_view(self.records@)[record_idx as int] == record@);
            assert(fields_in_bounds(record@.fields, self.source@.len() as int));
            assert(record.fields@[column as int].start <= record.fields@[column as int].end);
        }
        decode_field(self.source.as_slice(), record.fields[column], self.dialect)
    }

    /// Index of the edit of a cell, if it has one.
    fn edit_index(&self, coord: CellCoord) -> (r: Option<usize>)
        requires
            self.wf(),
        ensures
            match r {
                Some(i) => i < self.edit_list().len() && self.edit_list()[i as int].coord == coord
                    && edit_lookup(self.edit_list(), coord) == Some(self.edit_list()[i as int].value),
                None => edit_lookup(self.edit_list(), coord) is None,
            },
    {
        let ghost ev = self.edit_list();
        let mut i: usize = 0;
        while i < self.edits.len()
            invariant
                i <= self.edits@.len(),
                ev == edit_views(self.edits@),
                edits_unique(ev),
                forall|j: int| 0 <= j < i ==> (#[trigger] ev[j]).coord != coord,
            decreases self.edits@.len() - i,
        {
            if self.edits[i].coord == coord {
                proof {
                    lemma_edit_lookup_unique(ev, coord, i as int);
                }
                return Some(i);
            }
            i += 1;
        }
        proof {
            lemma_edit_lookup_absent(ev, coord);
        }
        None
    }

    /// The text of a cell, or none outside the table.
    ///
    /// Edits take precedence; inserted rows read their own texts; source rows
    /// read the indexed field (missing fields read as empty).
    pub fn cell(&self, row: usize, column: usize) -> (r: Option<String>)
        requires
            self.wf(),
        ensures
            match r {
                Some(v) => self.spec_cell(row as int, column as int) == Some(v@),
                None => self.spec_cell(row as int, column as int) is None,
            },
    {
        let rc = match self.real_column(column) {
            Some(c) => c,
            None => {
                return None;
            },
        };
        let sr = match self.storage_row(row) {
            Some(r) => r,
            None => {
                return None;
            },
        };
        match self.edit_index(CellCoord { row: sr, column: rc }) {
            Some(i) => {
                return Some(self.edits[i].value.clone());
            },
            None => {},
        }
        let vis = self.visible_source_row_count();
        if row >= vis {
            let ins = &self.inserted_rows[row - vis];
            proof {
                assert(self.inserted()[row - vis] == texts(ins@));
            }
            if rc < ins.len() {
                return Some(ins[rc].clone());
            } else {
                return Some(String::new());
            }
        }
        let dr = match self.visible_data_row_at(row) {
            Some(d) => d,
            None => {
                return None;
            },
        };
        if dr < self.data_rows.len() && self.data_rows[dr] < self.records.len() {
            Some(self.cell_from_data_row(dr, rc))
        } else {
            None
        }
    }
}

impl CsvDocument {
    /// Writes a cell.
    ///
    /// Fails with `InvalidColumn` for a column outside the table, then with
    /// `InvalidRow` for a row outside it; otherwise records the edit against the
    /// storage row and real column, so it follows the row through sorting.
    pub fn set_cell(&mut self, row: usize, column: usize, value: &str) -> (r: Result<(), CsvError>)
        requires
            old(self).wf(),
        ensures
            final(self).wf(),
            old(self).spec_real_column(column as int) is None ==> r == Err::<(), CsvError>(
                CsvError::InvalidColumn { column },
            ) && *final(self) == *old(self),
            old(self).spec_real_column(column as int) is Some && old(self).spec_storage_row(
                row as int,
            ) is None ==> r == Err::<(), CsvError>(CsvError::InvalidRow { row })
                && *final(self) == *old(self),
            old(self).spec_real_column(column as int) is Some && old(self).spec_storage_row(
                row as int,
            ) is Some ==> r is Ok,
            r is Ok ==> {
                let coord = CellCoord {
                    row: old(self).spec_storage_row(row as int)->0,
                    column: old(self).spec_real_column(column as int)->0,
                };
                &&& final(self).spec_dirty()
                &&& final(self).spec_path() == old(self).spec_path()
                &&& edit_lookup(final(self).edit_list(), coord) == Some(value@)
                &&& forall|c: CellCoord|
                    c != coord ==> edit_lookup(final(self).edit_list(), c) == edit_lookup(
                        old(self).edit_list(),
                        c,
                    )
                &&& final(self).edit_list().len() == old(self).edit_list().len() + if edit_lookup(
                    old(self).edit_list(),
                    coord,
                ) is Some {
                    0int
                } else {
                    1int
                }
                &&& final(self).spec_cell(row as int, column as int) == Some(value@)
                &&& forall|r: int, c: int|
                    (r != row || c != column) ==> #[trigger] final(self).spec_cell(r, c) == old(
                        self,
                    ).spec_cell(r, c)
                &&& same_overlay_except_edits(*final(self), *old(self))
            },
    {
        let rc = match self.real_column(column) {
            Some(c) => c,
            None => {
                return Err(CsvError::InvalidColumn { column });
            },
        };
        let sr = match self.storage_row(row) {
            Some(r) => r,
            None => {
                return Err(CsvError::InvalidRow { row });
            },
        };
        let coord = CellCoord { row: sr, column: rc };
        let ghost old_edits = self.edit_list();
        match self.edit_index(coord) {
            Some(i) => {
                self.edits.set(i, CellEdit { coord, value: value.to_owned() });
                proof {
                    assert(self.edit_list() =~= old_edits.update(i as int, self.edits@[i as int]@));
                    lemma_edit_lookup_update(old_edits, i as int, self.edits@[i as int]@);
                }
            },
            None => {
                self.edits.push(CellEdit { coord, value: value.to_owned() });
                proof {
                    assert(self.edit_list() =~= old_edits.push(self.edits@.last()@));
                    lemma_edit_lookup_push(old_edits, self.edits@.last()@);
                }
            },
        }
        self.dirty = true;
        proof {
            let o = *old(self);
            let f = *self;
            assert forall|r: int, c: int| (r != row || c != column) implies #[trigger] f.spec_cell(
                r,
                c,
            ) == o.spec_cell(r, c) by {
                match (o.spec_real_column(c), o.spec_storage_row(r)) {
                    (Some(rc2), Some(sr2)) => {
                        if c != column {
                            lemma_real_columns_distinct(o, c, column as int);
                        } else {
                            lemma_storage_rows_distinct(o, r, row as int);
                        }
                        assert(CellCoord { row: sr2, column: rc2 } != coord);
                    },
                    _ => {},
                }
            }
        }
        Ok(())
    }
}

/// Distinct shown rows have distinct storage rows.
proof fn lemma_storage_rows_distinct(doc: CsvDocument, a: int, b: int)
    requires
        doc.wf(),
        a != b,
        doc.spec_storage_row(a) is Some,
        doc.spec_storage_row(b) is Some,
    ensures
        doc.spec_storage_row(a) != doc.spec_storage_row(b),
{
    let vis = doc.visible_rows();
    lemma_keep_live_unique(doc.view_rows@, doc.deleted_rows@.to_set());
    lemma_keep_live_members(doc.view_rows@, doc.deleted_rows@.to_set());
    if 0 <= a < vis.len() {
        assert(doc.view_rows@.contains(vis[a]));
    }
    if 0 <= b < vis.len() {
        assert(doc.view_rows@.contains(vis[b]));
    }
}

/// Distinct shown columns have distinct real columns.
proof fn lemma_real_columns_distinct(doc: CsvDocument, a: int, b: int)
    requires
        doc.wf(),
        a != b,
        doc.spec_real_column(a) is Some,
        doc.spec_real_column(b) is Some,
    ensures
        doc.spec_real_column(a) != doc.spec_real_column(b),
{
    lemma_keep_live_unique(doc.column_order@, doc.deleted_columns@.to_set());
}

/// `n` empty texts.
fn empty_texts(n: usize) -> (r: Vec<String>)
    ensures
        texts(r@) == Seq::new(n as nat, |i: int| Seq::<char>::empty()),
{
    let mut v: Vec<String> = Vec::new();
    let mut i: usize = 0;
    while i < n
        invariant
            i <= n,
            v@.len() == i,
            forall|j: int| 0 <= j < i ==> (#[trigger] v@[j])@ == Seq::<char>::empty(),
        decreases n - i,
    {
        v.push(String::new());
        i += 1;
    }
    assert(texts(v@) =~= Seq::new(n as nat, |i: int| Seq::<char>::empty()));
    v
}

/// Where `insert_row` puts a new row among the inserted rows.
pub open spec fn inserted_row_slot(doc: CsvDocument, at: int) -> int {
    let vis = doc.visible_rows().len() as int;
    let k = if at > vis {
        at - vis
    } else {
        0
    };
    if k < doc.inserted().len() {
        k
    } else {
        doc.inserted().len() as int
    }
}

impl CsvDocument {
    /// Inserts an empty row before display row `at` (rows go among the inserted
    /// rows, which follow the source rows).
    pub fn insert_row(&mut self, at: usize) -> (r: Result<(), CsvError>)
        requires
            old(self).wf(),
            old(self).data_record().len() + old(self).inserted().len() < usize::MAX,
        ensures
            final(self).wf(),
            at > old(self).spec_row_count() ==> r == Err::<(), CsvError>(
                CsvError::InvalidRow { row: at },
            ) && *final(self) == *old(self),
            at <= old(self).spec_row_count() ==> r is Ok && row_inserted(
                *old(self),
                *final(self),
                at as int,
            ),
    {
        let count = self.row_count();
        if at > count {
            return Err(CsvError::InvalidRow { row: at });
        }
        let row = empty_texts(self.column_count());
        let vis = self.visible_source_row_count();
        let k = if at > vis {
            at - vis
        } else {
            0
        };
        let insert_at = if k < self.inserted_rows.len() {
            k
        } else {
            self.inserted_rows.len()
        };
        let ghost before = self.inserted_rows@;
        self.inserted_rows.insert(insert_at, row);
        self.dirty = true;
        proof {
            assert(grid(self.inserted_rows@) =~= grid(before).insert(
                insert_at as int,
                Seq::new(old(self).spec_column_count(), |i: int| Seq::<char>::empty()),
            ));
        }
        Ok(())
    }

    /// Deletes display row `row`: an inserted row is dropped, a source row is
    /// marked deleted.
    pub fn delete_row(&mut self, row: usize) -> (r: Result<(), CsvError>)
        requires
            old(self).wf(),
        ensures
            final(self).wf(),
            row >= old(self).spec_row_count() ==> r == Err::<(), CsvError>(
                CsvError::InvalidRow { row },
            ) && *final(self) == *old(self),
            row < old(self).spec_row_count() ==> {
                let vis = old(self).visible_rows().len() as int;
                &&& r is Ok
                &&& final(self).spec_row_count() + 1 == old(self).spec_row_count()
                &&& row < vis ==> final(self).visible_rows() == old(self).visible_rows().remove(
                    row as int,
                ) && final(self).inserted() == old(self).inserted()
                    && final(self).deleted_row_set() == old(self).deleted_row_set().insert(
                    old(self).visible_rows()[row as int],
                )
                &&& row >= vis ==> final(self).inserted() == old(self).inserted().remove(row - vis)
                    && final(self).visible_rows() == old(self).visible_rows()
                    && final(self).deleted_row_set() == old(self).deleted_row_set()
                &&& same_base(*final(self), *old(self))
                &&& final(self).spec_dirty()
                &&& final(self).spec_path() == old(self).spec_path()
                &&& final(self).edit_list() == old(self).edit_list()
                &&& final(self).visible_columns() == old(self).visible_columns()
                &&& final(self).column_order_list() == old(self).column_order_list()
                &&& final(self).data_record() == old(self).data_record()
                &&& final(self).filter_list() == old(self).filter_list()
                &&& final(self).sort_key_list() == old(self).sort_key_list()
                &&& row_slots(*final(self)) == row_slots(*old(self)).remove(row as int)
            },
    {
        let count = self.row_count();
        if row >= count {
            return Err(CsvError::InvalidRow { row });
        }
        let vis = self.visible_source_row_count();
        if row >= vis {
            let ghost before = self.inserted_rows@;
            self.inserted_rows.remove(row - vis);
            proof {
                assert(grid(self.inserted_rows@) =~= grid(before).remove(row - vis));
            }
        } else {
            let data_row = match self.visible_data_row_at(row) {
                Some(d) => d,
                None => {
                    return Err(CsvError::InvalidRow { row });
                },
            };
            let ghost old_dead = self.deleted_rows@;
            proof {
                lemma_keep_live_members(self.view_rows@, old_dead.to_set());
                assert(!old_dead.to_set().contains(data_row));
                assert(!old_dead.contains(data_row));
            }
            self.deleted_rows.push(data_row);
            proof {
                lemma_push_to_set(old_dead, data_row);
                assert(self.deleted_rows@.no_duplicates()) by {
                    assert forall|a: int, b: int|
                        0 <= a < b < self.deleted_rows@.len() implies self.deleted_rows@[a]
                        != self.deleted_rows@[b] by {
                        if b == old_dead.len() {
                            assert(old_dead.contains(old_dead[a]));
                        }
                    }
                }
                let s = self.view_rows@;
                let i = choose|i: int| 0 <= i < s.len() && s[i] == data_row;
                lemma_live_dead_one(s, old_dead.to_set(), i, row as int);
            }
        }
        proof {
            assert(row_slots(*self) =~= row_slots(*old(self)).remove(row as int));
        }
        self.dirty = true;
        Ok(())
    }
}

/// `new` is `old` with an empty row (as wide as the table) added before
/// display row `at`, among the added rows, and nothing else changed but the
/// dirty flag.
pub open spec fn row_inserted(old: CsvDocument, new: CsvDocument, at: int) -> bool {
    &&& new.inserted() == old.inserted().insert(
        inserted_row_slot(old, at),
        Seq::new(old.spec_column_count(), |i: int| Seq::<char>::empty()),
    )
    &&& new.spec_row_count() == old.spec_row_count() + 1
    &&& new.spec_dirty()
    &&& new.spec_path() == old.spec_path()
    &&& new.edit_list() == old.edit_list()
    &&& same_overlay_except_inserted(new, old)
}

/// `new` is `old` with an empty column added before display column `at`: a
/// fresh real column placed at that position of the column order (counted
/// with deleted columns, at the end when past it), and nothing else changed
/// but the dirty flag.
pub open spec fn column_inserted(old: CsvDocument, new: CsvDocument, at: int) -> bool {
    let order = old.column_order_list();
    let pos = if at < order.len() {
        at
    } else {
        order.len() as int
    };
    let id = (order.len() + old.inserted_column_count()) as usize;
    &&& new.column_order_list() == order.insert(pos, id)
    &&& new.visible_columns() == old.visible_columns().insert(
        live_before(order, old.deleted_column_set(), pos),
        id,
    )
    &&& new.inserted_column_count() == old.inserted_column_count() + 1
    &&& new.spec_column_count() == old.spec_column_count() + 2
    &&& same_base(new, old)
    &&& new.spec_dirty()
    &&& new.spec_path() == old.spec_path()
    &&& new.visible_rows() == old.visible_rows()
    &&& new.inserted() == old.inserted()
    &&& new.edit_list() == old.edit_list()
    &&& new.deleted_column_set() == old.deleted_column_set()
    &&& new.data_record() == old.data_record()
    &&& new.filter_list() == old.filter_list()
    &&& new.sort_key_list() == old.sort_key_list()
}

impl CsvDocument {
    /// Inserts an empty column before display column `at`.
    ///
    /// The new column gets a fresh real number and is placed at position `at`
    /// of the column order (counted with deleted columns); `column_count` then
    /// counts it both as a shown column and as an inserted column.
    pub fn insert_column(&mut self, at: usize) -> (r: Result<(), CsvError>)
        requires
            old(self).wf(),
            old(self).column_order_list().len() + old(self).inserted_column_count() + 1 < usize::MAX,
        ensures
            final(self).wf(),
            at > old(self).spec_column_count() ==> r == Err::<(), CsvError>(
                CsvError::InvalidColumn { column: at },
            ) && *final(self) == *old(self),
            at <= old(self).spec_column_count() ==> r is Ok && column_inserted(
                *old(self),
                *final(self),
                at as int,
            ),
    {
        let count = self.column_count();
        if at > count {
            return Err(CsvError::InvalidColumn { column: at });
        }
        let rows = self.row_count();
        let new_column = self.column_order.len() + self.inserted_columns.len();
        let pos = if at < self.column_order.len() {
            at
        } else {
            self.column_order.len()
        };
        let ghost order = self.column_order@;
        let ghost dead = self.deleted_columns@.to_set();
        proof {
            assert(!order.contains(new_column)) by {
                if order.contains(new_column) {
                    let k = choose|k: int| 0 <= k < order.len() && order[k] == new_column;
                    assert(order[k] < order.len() + self.inserted_columns@.len());
                }
            }
            assert(!dead.contains(new_column)) by {
                if self.deleted_columns@.contains(new_column) {
                    let k = choose|k: int|
                        0 <= k < self.deleted_columns@.len() && self.deleted_columns@[k]
                            == new_column;
                    assert(self.deleted_columns@[k] < order.len() + self.inserted_columns@.len());
                }
            }
            lemma_keep_live_insert(order, dead, pos as int, new_column);
        }
        self.column_order.insert(pos, new_column);
        self.inserted_columns.push(empty_texts(rows));
        self.dirty = true;
        proof {
            let o = self.column_order@;
            assert(o.no_duplicates()) by {
                assert forall|a: int, b: int| 0 <= a < b < o.len() implies o[a] != o[b] by {
                    if a == pos {
                        assert(order.contains(o[b]));
                    } else if b == pos {
                        assert(order.contains(o[a]));
                    } else {
                        let a0 = if a < pos { a } else { a - 1 };
                        let b0 = if b < pos { b } else { b - 1 };
                        assert(o[a] == order[a0] && o[b] == order[b0]);
                    }
                }
            }
            assert forall|k: int| 0 <= k < o.len() implies #[trigger] o[k] < o.len()
                + self.inserted_columns@.len() by {
                if k != pos {
                    let k0 = if k < pos { k } else { k - 1 };
                    assert(o[k] == order[k0]);
                }
            }
        }
        Ok(())
    }

    /// Deletes display column `column` (its real column is marked deleted).
    pub fn delete_column(&mut self, column: usize) -> (r: Result<(), CsvError>)
        requires
            old(self).wf(),
        ensures
            final(self).wf(),
            column >= old(self).visible_columns().len() ==> r == Err::<(), CsvError>(
                CsvError::InvalidColumn { column },
            ) && *final(self) == *old(self),
            column < old(self).visible_columns().len() ==> {
                &&& r is Ok
                &&& final(self).visible_columns() == old(self).visible_columns().remove(
                    column as int,
                )
                &&& final(self).deleted_column_set() == old(self).deleted_column_set().insert(
                    old(self).visible_columns()[column as int],
                )
                &&& final(self).spec_column_count() + 1 == old(self).spec_column_count()
                &&& final(self).column_order_list() == old(self).column_order_list()
                &&& same_base(*final(self), *old(self))
                &&& final(self).spec_dirty()
                &&& final(self).spec_path() == old(self).spec_path()
                &&& final(self).visible_rows() == old(self).visible_rows()
                &&& final(self).inserted() == old(self).inserted()
                &&& final(self).inserted_column_count() == old(self).inserted_column_count()
                &&& final(self).edit_list() == old(self).edit_list()
                &&& final(self).data_record() == old(self).data_record()
                &&& final(self).filter_list() == old(self).filter_list()
                &&& final(self).sort_key_list() == old(self).sort_key_list()
            },
    {
        let rc = match self.real_column(column) {
            Some(c) => c,
            None => {
                return Err(CsvError::InvalidColumn { column });
            },
        };
        let ghost old_dead = self.deleted_columns@;
        proof {
            lemma_keep_live_members(self.column_order@, old_dead.to_set());
            assert(!old_dead.contains(rc));
        }
        self.deleted_columns.push(rc);
        self.dirty = true;
        proof {
            lemma_push_to_set(old_dead, rc);
            assert(self.deleted_columns@.no_duplicates()) by {
                assert forall|a: int, b: int|
                    0 <= a < b < self.deleted_columns@.len() implies self.deleted_columns@[a]
                    != self.deleted_columns@[b] by {
                    if b == old_dead.len() {
                        assert(old_dead.contains(old_dead[a]));
                    }
                }
            }
            let s = self.column_order@;
            let i = choose|i: int| 0 <= i < s.len() && s[i] == rc;
            assert(s[i] < s.len() + self.inserted_columns@.len());
            lemma_live_dead_one(s, old_dead.to_set(), i, column as int);
        }
        Ok(())
    }

    /// Moves the source row shown at `from` so that it is shown at `to`.
    ///
    /// Only source rows can move; any other position fails with `InvalidReorder`.
    pub fn reorder_row(&mut self, from: usize, to: usize) -> (r: Result<(), CsvError>)
        requires
            old(self).wf(),
        ensures
            final(self).wf(),
            (from >= old(self).visible_rows().len() || to >= old(self).visible_rows().len()) ==> r
                == Err::<(), CsvError>(CsvError::InvalidReorder { from, to }) && *final(self)
                == *old(self),
            (from < old(self).visible_rows().len() && to < old(self).visible_rows().len()) ==> {
                &&& r is Ok
                &&& final(self).visible_rows() == old(self).visible_rows().remove(
                    from as int,
                ).insert(to as int, old(self).visible_rows()[from as int])
                &&& same_base(*final(self), *old(self))
                &&& final(self).spec_dirty()
                &&& final(self).spec_path() == old(self).spec_path()
                &&& final(self).deleted_row_set() == old(self).deleted_row_set()
                &&& final(self).inserted() == old(self).inserted()
                &&& final(self).visible_columns() == old(self).visible_columns()
                &&& final(self).column_order_list() == old(self).column_order_list()
                &&& final(self).edit_list() == old(self).edit_list()
                &&& final(self).data_record() == old(self).data_record()
                &&& final(self).filter_list() == old(self).filter_list()
                &&& final(self).sort_key_list() == old(self).sort_key_list()
            },
    {
        let from_data_row = match self.visible_data_row_at(from) {
            Some(d) => d,
            None => {
                return Err(CsvError::InvalidReorder { from, to });
            },
        };
        let to_data_row = match self.visible_data_row_at(to) {
            Some(d) => d,
            None => {
                return Err(CsvError::InvalidReorder { from, to });
            },
        };
        let ghost s = self.view_rows@;
        let ghost dead = self.deleted_rows@.to_set();
        proof {
            lemma_keep_live_members(s, dead);
        }
        let from_idx = match position_usize(&self.view_rows, from_data_row) {
            Some(i) => i,
            None => {
                return Err(CsvError::InvalidReorder { from, to });
            },
        };
        let to_idx = match position_usize(&self.view_rows, to_data_row) {
            Some(i) => i,
            None => {
                return Err(CsvError::InvalidReorder { from, to });
            },
        };
        proof {
            lemma_reorder_live(s, dead, from_idx as int, to_idx as int, from as int, to as int);
        }
        let row = self.view_rows.remove(from_idx);
        self.view_rows.insert(to_idx, row);
        self.dirty = true;
        proof {
            let v = self.view_rows@;
            let s1 = s.remove(from_idx as int);
            assert(v == s1.insert(to_idx as int, row));
            assert(v.no_duplicates()) by {
                assert forall|a: int, b: int| 0 <= a < b < v.len() implies v[a] != v[b] by {
                    let a0 = if a == to_idx { from_idx as int } else {
                        let x = if a < to_idx { a } else { a - 1 };
                        if x < from_idx { x } else { x + 1 }
                    };
                    let b0 = if b == to_idx { from_idx as int } else {
                        let x = if b < to_idx { b } else { b - 1 };
                        if x < from_idx { x } else { x + 1 }
                    };
                    assert(v[a] == s[a0]);
                    assert(v[b] == s[b0]);
                    assert(a0 != b0);
                }
            }
            assert forall|k: int| 0 <= k < v.len() implies #[trigger] v[k] < self.data_rows@.len() by {
                let x = if k == to_idx { from_idx as int } else {
                    let y = if k < to_idx { k } else { k - 1 };
                    if y < from_idx { y } else { y + 1 }
                };
                assert(v[k] == s[x]);
            }
        }
        Ok(())
    }

    /// Moves the column at position `from` of the column order to position `to`
    /// (positions count deleted columns too).
    pub fn reorder_column(&mut self, from: usize, to: usize) -> (r: Result<(), CsvError>)
        requires
            old(self).wf(),
        ensures
            final(self).wf(),
            (from >= old(self).column_order_list().len() || to >= old(
                self,
            ).column_order_list().len()) ==> r == Err::<(), CsvError>(
                CsvError::InvalidReorder { from, to },
            ) && *final(self) == *old(self),
            (from < old(self).column_order_list().len() && to < old(
                self,
            ).column_order_list().len()) ==> {
                let order = old(self).column_order_list();
                &&& r is Ok
                &&& final(self).column_order_list() == order.remove(from as int).insert(
                    to as int,
                    order[from as int],
                )
                &&& final(self).visible_columns() == keep_live(
                    final(self).column_order_list(),
                    old(self).deleted_column_set(),
                )
                &&& final(self).deleted_column_set() == old(self).deleted_column_set()
                &&& final(self).inserted_column_count() == old(self).inserted_column_count()
                &&& same_base(*final(self), *old(self))
                &&& final(self).spec_dirty()
                &&& final(self).spec_path() == old(self).spec_path()
                &&& final(self).visible_rows() == old(self).visible_rows()
                &&& final(self).inserted() == old(self).inserted()
                &&& final(self).edit_list() == old(self).edit_list()
                &&& final(self).data_record() == old(self).data_record()
                &&& final(self).filter_list() == old(self).filter_list()
                &&& final(self).sort_key_list() == old(self).sort_key_list()
            },
    {
        if from >= self.column_order.len() || to >= self.column_order.len() {
            return Err(CsvError::InvalidReorder { from, to });
        }
        let ghost o = self.column_order@;
        let column = self.column_order.remove(from);
        self.column_order.insert(to, column);
        self.dirty = true;
        proof {
            let v = self.column_order@;
            assert forall|a: int, b: int| 0 <= a < b < v.len() implies v[a] != v[b] by {
                let a0 = if a == to { from as int } else {
                    let x = if a < to { a } else { a - 1 };
                    if x < from { x } else { x + 1 }
                };
                let b0 = if b == to { from as int } else {
                    let x = if b < to { b } else { b - 1 };
                    if x < from { x } else { x + 1 }
                };
                assert(v[a] == o[a0]);
                assert(v[b] == o[b0]);
                assert(a0 != b0);
            }
            assert forall|k: int| 0 <= k < v.len() implies #[trigger] v[k] < v.len()
                + self.inserted_columns@.len() by {
                let x = if k == to { from as int } else {
                    let y = if k < to { k } else { k - 1 };
                    if y < from { y } else { y + 1 }
                };
                assert(v[k] == o[x]);
            }
        }
        Ok(())
    }
}

/// A data row passes every filter rule (rules read source texts, not edits).
pub open spec fn row_matches<F: Fn(&str) -> Option<u64>>(doc: CsvDocument, f: &F, r: int) -> bool {
    forall|k: int|
        0 <= k < doc.filter_list().len() ==> rule_holds(
            f,
            (#[trigger] doc.filter_list()[k]).operator,
            doc.filter_list()[k].value,
            doc.source_value(r, doc.filter_list()[k].column as int),
        )
}

/// The data rows below `n` that are not deleted and pass the filters, in order.
pub open spec fn matching_rows<F: Fn(&str) -> Option<u64>>(doc: CsvDocument, f: &F, n: int) -> Seq<
    usize,
>
    decreases n,
{
    if n <= 0 {
        Seq::empty()
    } else {
        let p = matching_rows(doc, f, n - 1);
        if !doc.deleted_row_set().contains((n - 1) as usize) && row_matches(doc, f, n - 1) {
            p.push((n - 1) as usize)
        } else {
            p
        }
    }
}

/// How two data rows compare under the sort keys from `k` on.
///
/// Empty cells go last whatever the direction; other cells compare naturally
/// (numbers by value, text case-insensitively) and the direction applies; rows
/// that tie on every key keep their data order.
pub open spec fn key_order<F: Fn(&str) -> Option<u64>>(
    doc: CsvDocument,
    f: &F,
    keys: Seq<SortKey>,
    k: int,
    l: usize,
    r: usize,
) -> Comparison
    decreases keys.len() - k,
{
    if k < 0 || k >= keys.len() {
        int_order(l as int, r as int)
    } else {
        let key = keys[k];
        let lv = doc.source_value(l as int, key.column as int);
        let rv = doc.source_value(r as int, key.column as int);
        let ln = lv.len() == 0;
        let rn = rv.len() == 0;
        let o = if ln && !rn {
            Comparison::Greater
        } else if !ln && rn {
            Comparison::Less
        } else if ln && rn {
            Comparison::Equal
        } else {
            natural_order(f, lv, rv)
        };
        if o != Comparison::Equal && (ln || rn) {
            o
        } else {
            let o2 = match key.direction {
                SortDirection::Ascending => o,
                SortDirection::Descending => o.spec_reverse(),
            };
            if o2 != Comparison::Equal {
                o2
            } else {
                key_order(doc, f, keys, k + 1, l, r)
            }
        }
    }
}

/// The comparison of two data rows that sorting uses.
pub open spec fn row_order<F: Fn(&str) -> Option<u64>>(
    doc: CsvDocument,
    f: &F,
    keys: Seq<SortKey>,
    l: usize,
    r: usize,
) -> Comparison {
    key_order(doc, f, keys, 0, l, r)
}

/// The row comparison is a total order on the rows of `s`, as sorting needs.
#[verifier::opaque]
pub open spec fn total_on<F: Fn(&str) -> Option<u64>>(
    doc: CsvDocument,
    f: &F,
    keys: Seq<SortKey>,
    s: Seq<usize>,
) -> bool {
    &&& forall|a: usize, b: usize|
        s.contains(a) && s.contains(b) ==> (row_order(doc, f, keys, a, b) == Comparison::Less
            <==> row_order(doc, f, keys, b, a) == Comparison::Greater)
    &&& forall|a: usize, b: usize|
        s.contains(a) && s.contains(b) ==> (row_order(doc, f, keys, a, b) == Comparison::Equal
            <==> row_order(doc, f, keys, b, a) == Comparison::Equal)
    &&& forall|a: usize, b: usize, c: usize|
        s.contains(a) && s.contains(b) && s.contains(c) && row_order(doc, f, keys, a, b)
            == Comparison::Less && row_order(doc, f, keys, b, c) == Comparison::Less
            ==> row_order(doc, f, keys, a, c) == Comparison::Less
    &&& forall|a: usize, b: usize, c: usize|
        s.contains(a) && s.contains(b) && s.contains(c) && row_order(doc, f, keys, a, b)
            == Comparison::Equal && row_order(doc, f, keys, b, c) == Comparison::Equal
            ==> row_order(doc, f, keys, a, c) == Comparison::Equal
    &&& forall|a: usize, b: usize, c: usize|
        s.contains(a) && s.contains(b) && s.contains(c) && row_order(doc, f, keys, a, b)
            == Comparison::Greater && row_order(doc, f, keys, b, c) == Comparison::Greater
            ==> row_order(doc, f, keys, a, c) == Comparison::Greater
}

/// No row of `s` comes after a row that it sorts before.
#[verifier::opaque]
pub open spec fn sorted_rows<F: Fn(&str) -> Option<u64>>(
    doc: CsvDocument,
    f: &F,
    keys: Seq<SortKey>,
    s: Seq<usize>,
) -> bool {
    forall|i: int, j: int|
        0 <= i < j < s.len() ==> row_order(doc, f, keys, s[i], s[j]) != Comparison::Greater
}

/// Rows that sort as equal are shown in data order.
#[verifier::opaque]
pub open spec fn ties_in_order<F: Fn(&str) -> Option<u64>>(
    doc: CsvDocument,
    f: &F,
    keys: Seq<SortKey>,
    s: Seq<usize>,
) -> bool {
    forall|i: int, j: int|
        0 <= i < j < s.len() && row_order(doc, f, keys, s[i], s[j]) == Comparison::Equal ==> s[i]
            < s[j]
}

/// Rows of `after` that sort as equal come in the order they had in `before`.
#[verifier::opaque]
pub open spec fn keeps_tie_order<F: Fn(&str) -> Option<u64>>(
    doc: CsvDocument,
    f: &F,
    keys: Seq<SortKey>,
    before: Seq<usize>,
    after: Seq<usize>,
) -> bool {
    forall|i: int, j: int|
        0 <= i < j < after.len() && row_order(doc, f, keys, after[i], after[j]) == Comparison::Equal
            ==> exists|p: int, q: int|
            0 <= p < q < before.len() && before[p] == after[i] && before[q] == after[j]
}

/// Sorts rows in parallel with the row comparison.
///
/// Calls `rayon`'s `par_sort_by`. Claimed, as its documentation says: the rows
/// are rearranged (the same rows, each as often), and when the comparison is a
/// total order on them they come out in order, rows that compare equal in the
/// order they had (the sort is stable). Nothing is claimed of the order
/// otherwise (the documentation leaves it unspecified).
#[verifier::external_body]
fn par_sort_rows<F: Fn(&str) -> Option<u64> + Sync>(
    doc: &CsvDocument,
    rows: &mut Vec<usize>,
    keys: &Vec<SortKey>,
    numbers: &F,
)
    requires
        doc.wf(),
        is_number_reader(numbers),
    ensures
        final(rows)@.to_multiset() == old(rows)@.to_multiset(),
        total_on(*doc, numbers, keys@, old(rows)@) ==> sorted_rows(
            *doc,
            numbers,
            keys@,
            final(rows)@,
        ) && keeps_tie_order(*doc, numbers, keys@, old(rows)@, final(rows)@),
{
    rows.par_sort_by(|l, r| doc.row_ordering(*l, *r, keys, numbers));
}

/// The rules of `rules` that do not test column `c`, in order.
pub open spec fn rules_without(rules: Seq<RuleView>, c: usize) -> Seq<RuleView>
    decreases rules.len(),
{
    if rules.len() == 0 {
        Seq::empty()
    } else {
        let p = rules_without(rules.drop_last(), c);
        if rules.last().column == c {
            p
        } else {
            p.push(rules.last())
        }
    }
}

/// The rules with their columns moved from display to real columns; none when
/// a rule names a column outside the table.
pub open spec fn rules_to_real(doc: CsvDocument, rules: Seq<RuleView>) -> Option<Seq<RuleView>> {
    if forall|k: int| 0 <= k < rules.len() ==> (#[trigger] rules[k]).column < doc.visible_columns().len() {
        Some(
            Seq::new(
                rules.len(),
                |k: int|
                    RuleView {
                        column: doc.visible_columns()[rules[k].column as int],
                        operator: rules[k].operator,
                        value: rules[k].value,
                    },
            ),
        )
    } else {
        None
    }
}

/// The first rule naming a column outside the table.
pub open spec fn first_bad_rule(doc: CsvDocument, rules: Seq<RuleView>) -> int {
    choose|k: int|
        0 <= k < rules.len() && rules[k].column >= doc.visible_columns().len() && forall|j: int|
            0 <= j < k ==> (#[trigger] rules[j]).column < doc.visible_columns().len()
}

/// Sort keys with their columns moved from display to real columns.
pub open spec fn keys_to_real(doc: CsvDocument, keys: Seq<SortKey>) -> Option<Seq<SortKey>> {
    if forall|k: int| 0 <= k < keys.len() ==> (#[trigger] keys[k]).column < doc.visible_columns().len() {
        Some(
            Seq::new(
                keys.len(),
                |k: int|
                    SortKey {
                        column: doc.visible_columns()[keys[k].column as int],
                        direction: keys[k].direction,
                    },
            ),
        )
    } else {
        None
    }
}

pub open spec fn first_bad_key(doc: CsvDocument, keys: Seq<SortKey>) -> int {
    choose|k: int|
        0 <= k < keys.len() && keys[k].column >= doc.visible_columns().len() && forall|j: int|
            0 <= j < k ==> (#[trigger] keys[j]).column < doc.visible_columns().len()
}

/// The view after filtering and sorting: the matching rows, sorted when there are sort keys.
pub open spec fn refreshed<F: Fn(&str) -> Option<u64>>(doc: CsvDocument, f: &F) -> bool {
    let m = matching_rows(doc, f, doc.data_record().len() as int);
    &&& doc.visible_rows().to_multiset() == m.to_multiset()
    &&& doc.sort_key_list().len() == 0 ==> doc.visible_rows() == m
    &&& total_on(doc, f, doc.sort_key_list(), m) ==> sorted_rows(
        doc,
        f,
        doc.sort_key_list(),
        doc.visible_rows(),
    ) && ties_in_order(doc, f, doc.sort_key_list(), doc.visible_rows())
}

/// Entries that are all live are kept as they are.
proof fn lemma_keep_live_all_live(s: Seq<usize>, dead: Set<usize>)
    requires
        forall|k: int| 0 <= k < s.len() ==> !dead.contains(#[trigger] s[k]),
    ensures
        keep_live(s, dead) == s,
    decreases s.len(),
{
    if s.len() > 0 {
        assert forall|k: int| 0 <= k < s.drop_last().len() implies !dead.contains(
            #[trigger] s.drop_last()[k],
        ) by {
            assert(s.drop_last()[k] == s[k]);
        }
        lemma_keep_live_all_live(s.drop_last(), dead);
        assert(s.drop_last().push(s.last()) =~= s);
        assert(!dead.contains(s[s.len() - 1]));
    }
}

/// Matching rows are increasing, below `n` and not deleted.
proof fn lemma_matching_rows_props<F: Fn(&str) -> Option<u64>>(doc: CsvDocument, f: &F, n: int)
    requires
        n <= usize::MAX,
    ensures
        forall|k: int|
            0 <= k < matching_rows(doc, f, n).len() ==> #[trigger] matching_rows(doc, f, n)[k] < n,
        forall|k: int|
            0 <= k < matching_rows(doc, f, n).len() ==> !doc.deleted_row_set().contains(
                #[trigger] matching_rows(doc, f, n)[k],
            ),
        forall|a: int, b: int|
            0 <= a < b < matching_rows(doc, f, n).len() ==> #[trigger] matching_rows(doc, f, n)[a]
                < #[trigger] matching_rows(doc, f, n)[b],
        matching_rows(doc, f, n).len() <= if n > 0 {
            n
        } else {
            0
        },
    decreases n,
{
    if n > 0 {
        lemma_matching_rows_props(doc, f, n - 1);
        let p = matching_rows(doc, f, n - 1);
        let m = matching_rows(doc, f, n);
        let x = (n - 1) as usize;
        if !doc.deleted_row_set().contains(x) && row_matches(doc, f, n - 1) {
            assert(m == p.push(x));
            assert forall|k: int| 0 <= k < m.len() implies #[trigger] m[k] < n by {
                if k < p.len() {
                    assert(m[k] == p[k]);
                }
            }
            assert forall|k: int| 0 <= k < m.len() implies !doc.deleted_row_set().contains(
                #[trigger] m[k],
            ) by {
                if k < p.len() {
                    assert(m[k] == p[k]);
                }
            }
            assert forall|a: int, b: int| 0 <= a < b < m.len() implies #[trigger] m[a]
                < #[trigger] m[b] by {
                assert(m[a] == p[a]);
                assert(p[a] < n - 1);
                if b < p.len() {
                    assert(m[b] == p[b]);
                    assert(p[a] < p[b]);
                } else {
                    assert(m[b] == x);
                }
            }
        } else {
            assert(m == p);
        }
    }
}

/// Moving from one multiset-equal list to another keeps "no duplicates" and membership.
proof fn lemma_same_multiset(a: Seq<usize>, b: Seq<usize>)
    requires
        a.to_multiset() == b.to_multiset(),
        a.no_duplicates(),
    ensures
        b.no_duplicates(),
        forall|x: usize| a.contains(x) <==> b.contains(x),
        a.len() == b.len(),
{
    broadcast use vstd::seq_lib::to_multiset_contains;
    a.lemma_multiset_has_no_duplicates();
    b.lemma_multiset_has_no_duplicates_conv();
    a.to_multiset_ensures();
    b.to_multiset_ensures();
    assert forall|x: usize| a.contains(x) <==> b.contains(x) by {
        vstd::seq_lib::to_multiset_contains(a, x);
        vstd::seq_lib::to_multiset_contains(b, x);
    }
}

impl CsvDocument {
    /// Whether a data row passes every filter rule.
    fn row_matches_filters<F: Fn(&str) -> Option<u64>>(&self, data_row: usize, numbers: &F) -> (r: bool)
        requires
            self.wf(),
            is_number_reader(numbers),
        ensures
            r == row_matches(*self, numbers, data_row as int),
    {
        let mut k: usize = 0;
        while k < self.filters.len()
            invariant
                self.wf(),
                is_number_reader(numbers),
                k <= self.filters@.len(),
                forall|j: int|
                    0 <= j < k ==> rule_holds(
                        numbers,
                        (#[trigger] self.filter_list()[j]).operator,
                        self.filter_list()[j].value,
                        self.source_value(data_row as int, self.filter_list()[j].column as int),
                    ),
            decreases self.filters@.len() - k,
        {
            let rule = &self.filters[k];
            let value = self.cell_from_data_row(data_row, rule.column);
            if !rule_matches_value(rule, value.as_str(), numbers) {
                assert(self.filter_list()[k as int] == rule@);
                return false;
            }
            assert(self.filter_list()[k as int] == rule@);
            k += 1;
        }
        true
    }

    /// Compares two data rows under the sort keys.
    pub fn compare_rows<F: Fn(&str) -> Option<u64>>(
        &self,
        left: usize,
        right: usize,
        keys: &Vec<SortKey>,
        numbers: &F,
    ) -> (c: Comparison)
        requires
            self.wf(),
            is_number_reader(numbers),
        ensures
            c == row_order(*self, numbers, keys@, left, right),
    {
        let mut k: usize = 0;
        while k < keys.len()
            invariant
                self.wf(),
                is_number_reader(numbers),
                k <= keys@.len(),
                key_order(*self, numbers, keys@, k as int, left, right) == row_order(
                    *self,
                    numbers,
                    keys@,
                    left,
                    right,
                ),
            decreases keys@.len() - k,
        {
            let key = keys[k];
            let lv = self.cell_from_data_row(left, key.column);
            let rv = self.cell_from_data_row(right, key.column);
            let ln = lv.as_str().is_empty();
            let rn = rv.as_str().is_empty();
            let o = if ln && !rn {
                Comparison::Greater
            } else if !ln && rn {
                Comparison::Less
            } else if ln && rn {
                Comparison::Equal
            } else {
                crate::rules::naturalish_order(lv.as_str(), rv.as_str(), numbers)
            };
            if o != Comparison::Equal && (ln || rn) {
                return o;
            }
            let o2 = match key.direction {
                SortDirection::Ascending => o,
                SortDirection::Descending => o.reverse(),
            };
            if o2 != Comparison::Equal {
                return o2;
            }
            k += 1;
        }
        if left < right {
            Comparison::Less
        } else if left == right {
            Comparison::Equal
        } else {
            Comparison::Greater
        }
    }

    /// The row comparison as a standard ordering, for the parallel sort.
    pub fn row_ordering<F: Fn(&str) -> Option<u64>>(
        &self,
        left: usize,
        right: usize,
        keys: &Vec<SortKey>,
        numbers: &F,
    ) -> (o: std::cmp::Ordering)
        requires
            self.wf(),
            is_number_reader(numbers),
        ensures
            o == std::cmp::Ordering::Less <==> row_order(*self, numbers, keys@, left, right)
                == Comparison::Less,
            o == std::cmp::Ordering::Equal <==> row_order(*self, numbers, keys@, left, right)
                == Comparison::Equal,
            o == std::cmp::Ordering::Greater <==> row_order(*self, numbers, keys@, left, right)
                == Comparison::Greater,
    {
        match self.compare_rows(left, right, keys, numbers) {
            Comparison::Less => std::cmp::Ordering::Less,
            Comparison::Equal => std::cmp::Ordering::Equal,
            Comparison::Greater => std::cmp::Ordering::Greater,
        }
    }

    /// The data rows that are not deleted and pass every filter, in data order.
    fn matching_row_list<F: Fn(&str) -> Option<u64>>(&self, numbers: &F) -> (rows: Vec<usize>)
        requires
            self.wf(),
            is_number_reader(numbers),
        ensures
            rows@ == matching_rows(*self, numbers, self.data_record().len() as int),
    {
        let n = self.data_rows.len();
        let mut rows: Vec<usize> = Vec::new();
        let mut r: usize = 0;
        while r < n
            invariant
                self.wf(),
                is_number_reader(numbers),
                n == self.data_rows@.len(),
                r <= n,
                rows@ == matching_rows(*self, numbers, r as int),
            decreases n - r,
        {
            if !contains_usize(&self.deleted_rows, r) && self.row_matches_filters(r, numbers) {
                rows.push(r);
            }
            r += 1;
        }
        rows
    }

    /// The matching rows, sorted by the sort keys when there are any.
    fn ordered_rows<F: Fn(&str) -> Option<u64> + Sync>(&self, numbers: &F) -> (rows: Vec<usize>)
        requires
            self.wf(),
            is_number_reader(numbers),
        ensures
            rows@.to_multiset() == matching_rows(*self, numbers, self.data_rows@.len() as int).to_multiset(),
            self.sort_keys@.len() == 0 ==> rows@ == matching_rows(
                *self,
                numbers,
                self.data_rows@.len() as int,
            ),
            total_on(
                *self,
                numbers,
                self.sort_keys@,
                matching_rows(*self, numbers, self.data_rows@.len() as int),
            ) ==> sorted_rows(*self, numbers, self.sort_keys@, rows@) && ties_in_order(
                *self,
                numbers,
                self.sort_keys@,
                rows@,
            ),
    {
        let mut rows = self.matching_row_list(numbers);
        let ghost m = rows@;
        proof {
            lemma_matching_rows_props(*self, numbers, self.data_rows@.len() as int);
        }
        if !self.sort_keys.is_empty() {
            par_sort_rows(self, &mut rows, &self.sort_keys, numbers);
            proof {
                if total_on(*self, numbers, self.sort_keys@, m) {
                    reveal(keeps_tie_order);
                    reveal(ties_in_order);
                    assert forall|i: int, j: int|
                        0 <= i < j < rows@.len() && row_order(
                            *self,
                            numbers,
                            self.sort_keys@,
                            rows@[i],
                            rows@[j],
                        ) == Comparison::Equal implies rows@[i] < rows@[j] by {
                        let (p, q) = choose|p: int, q: int|
                            0 <= p < q < m.len() && m[p] == rows@[i] && m[q] == rows@[j];
                        assert(m[p] < m[q]);
                    }
                }
            }
        } else {
            proof {
                reveal(sorted_rows);
                reveal(ties_in_order);
            }
        }
        rows
    }

    /// Recomputes the shown source rows: those not deleted that pass every
    /// filter, sorted by the sort keys when there are any.
    fn refresh_view<F: Fn(&str) -> Option<u64> + Sync>(&mut self, numbers: &F)
        requires
            old(self).wf(),
            is_number_reader(numbers),
        ensures
            final(self).wf(),
            refreshed(*final(self), numbers),
            same_overlay_except_view(*final(self), *old(self)),
            final(self).spec_dirty() == old(self).spec_dirty(),
            final(self).spec_path() == old(self).spec_path(),
    {
        let ghost m = matching_rows(*self, numbers, self.data_rows@.len() as int);
        let rows = self.ordered_rows(numbers);
        proof {
            lemma_view_candidates(*self, numbers, m, rows@);
        }
        let ghost before = *self;
        self.view_rows = rows;
        proof {
            lemma_install_view(before, *self, numbers, m);
        }
    }
}

/// Installing a rearrangement of the matching rows as the shown rows refreshes the view.
proof fn lemma_install_view<F: Fn(&str) -> Option<u64>>(
    before: CsvDocument,
    after: CsvDocument,
    f: &F,
    m: Seq<usize>,
)
    requires
        before.wf(),
        after == (CsvDocument { view_rows: after.view_rows, ..before }),
        m == matching_rows(before, f, before.data_rows@.len() as int),
        after.view_rows@.to_multiset() == m.to_multiset(),
        before.sort_keys@.len() == 0 ==> after.view_rows@ == m,
        total_on(before, f, before.sort_keys@, m) ==> sorted_rows(
            before,
            f,
            before.sort_keys@,
            after.view_rows@,
        ) && ties_in_order(before, f, before.sort_keys@, after.view_rows@),
        forall|k: int| 0 <= k < after.view_rows@.len() ==> #[trigger] after.view_rows@[k] < before.data_rows@.len(),
        after.view_rows@.no_duplicates(),
        after.view_rows@.len() <= before.data_rows@.len(),
        keep_live(after.view_rows@, before.deleted_rows@.to_set()) == after.view_rows@,
    ensures
        after.wf(),
        refreshed(after, f),
        same_overlay_except_view(after, before),
{
    lemma_matching_rows_same(after, before, f, before.data_rows@.len() as int);
    assert forall|a: usize, b: usize|
        row_order(after, f, before.sort_keys@, a, b) == row_order(before, f, before.sort_keys@, a, b) by {
        lemma_key_order_same(after, before, f, before.sort_keys@, 0, a, b);
    }
    reveal(total_on);
    reveal(sorted_rows);
    reveal(ties_in_order);
}

/// A rearrangement of the matching rows can serve as the shown rows.
proof fn lemma_view_candidates<F: Fn(&str) -> Option<u64>>(
    doc: CsvDocument,
    f: &F,
    m: Seq<usize>,
    rows: Seq<usize>,
)
    requires
        doc.data_record().len() <= usize::MAX,
        m == matching_rows(doc, f, doc.data_record().len() as int),
        rows.to_multiset() == m.to_multiset(),
    ensures
        rows.no_duplicates(),
        forall|k: int| 0 <= k < rows.len() ==> #[trigger] rows[k] < doc.data_record().len(),
        rows.len() <= doc.data_record().len(),
        keep_live(rows, doc.deleted_row_set()) == rows,
{
    let n = doc.data_record().len() as int;
    lemma_matching_rows_props(doc, f, n);
    assert(m.no_duplicates()) by {
        assert forall|a: int, b: int| 0 <= a < b < m.len() implies m[a] != m[b] by {}
    }
    lemma_same_multiset(m, rows);
    assert forall|k: int| 0 <= k < rows.len() implies #[trigger] rows[k] < n
        && !doc.deleted_row_set().contains(rows[k]) by {
        assert(m.contains(rows[k]));
    }
    lemma_unique_below_len(rows, n);
    lemma_keep_live_all_live(rows, doc.deleted_row_set());
}

/// Two documents agree on everything but the order and selection of shown source rows.
pub open spec fn same_overlay_except_view(a: CsvDocument, b: CsvDocument) -> bool {
    &&& a.source() == b.source()
    &&& a.spec_dialect() == b.spec_dialect()
    &&& a.record_list() == b.record_list()
    &&& a.data_record() == b.data_record()
    &&& a.spec_headers() == b.spec_headers()
    &&& a.skipped() == b.skipped()
    &&& a.visible_columns() == b.visible_columns()
    &&& a.column_order_list() == b.column_order_list()
    &&& a.inserted() == b.inserted()
    &&& a.inserted_column_count() == b.inserted_column_count()
    &&& a.edit_list() == b.edit_list()
    &&& a.deleted_row_set() == b.deleted_row_set()
    &&& a.deleted_column_set() == b.deleted_column_set()
    &&& a.filter_list() == b.filter_list()
    &&& a.sort_key_list() == b.sort_key_list()
}

proof fn lemma_matching_rows_same<F: Fn(&str) -> Option<u64>>(
    a: CsvDocument,
    b: CsvDocument,
    f: &F,
    n: int,
)
    requires
        a.source() == b.source(),
        a.spec_dialect() == b.spec_dialect(),
        a.record_list() == b.record_list(),
        a.data_record() == b.data_record(),
        a.deleted_row_set() == b.deleted_row_set(),
        a.filter_list() == b.filter_list(),
    ensures
        matching_rows(a, f, n) == matching_rows(b, f, n),
    decreases n,
{
    if n > 0 {
        lemma_matching_rows_same(a, b, f, n - 1);
    }
}

proof fn lemma_key_order_same<F: Fn(&str) -> Option<u64>>(
    a: CsvDocument,
    b: CsvDocument,
    f: &F,
    keys: Seq<SortKey>,
    k: int,
    l: usize,
    r: usize,
)
    requires
        a.source() == b.source(),
        a.spec_dialect() == b.spec_dialect(),
        a.record_list() == b.record_list(),
        a.data_record() == b.data_record(),
    ensures
        key_order(a, f, keys, k, l, r) == key_order(b, f, keys, k, l, r),
    decreases keys.len() - k,
{
    if 0 <= k < keys.len() {
        lemma_key_order_same(a, b, f, keys, k + 1, l, r);
    }
}

/// Moving a live entry within a list without duplicates moves it the same way
/// among the live entries.
proof fn lemma_reorder_live(s: Seq<usize>, dead: Set<usize>, i: int, j: int, f: int, t: int)
    requires
        s.no_duplicates(),
        0 <= i < s.len(),
        0 <= j < s.len(),
        0 <= f < keep_live(s, dead).len(),
        0 <= t < keep_live(s, dead).len(),
        keep_live(s, dead)[f] == s[i],
        keep_live(s, dead)[t] == s[j],
    ensures
        keep_live(s.remove(i).insert(j, s[i]), dead) == keep_live(s, dead).remove(f).insert(
            t,
            s[i],
        ),
{
    let v = keep_live(s, dead);
    lemma_keep_live_members(s, dead);
    lemma_keep_live_unique(s, dead);
    lemma_live_position(s, dead, i, f);
    lemma_live_position(s, dead, j, t);
    let x = s[i];
    lemma_keep_live_remove(s, dead, i);
    let s1 = s.remove(i);
    lemma_keep_live_insert(s1, dead, j, x);
    if i < j {
        let p = s.take(j + 1);
        assert(p[i] == x);
        lemma_keep_live_remove(p, dead, i);
        assert(p.take(i) =~= s.take(i));
        assert(p.remove(i) =~= s1.take(j));
        lemma_keep_live_step(s, dead, j);
        assert(!dead.contains(s[j]));
        assert(live_before(s1, dead, j) == t);
    } else {
        assert(s1.take(j) =~= s.take(j));
        if i == j {
            assert(f == t) by {
                if f != t {
                    assert(v[f] != v[t]);
                }
            }
        }
    }
}

/// Marking one more live entry dead removes it from the live entries.
proof fn lemma_live_dead_one(s: Seq<usize>, dead: Set<usize>, i: int, f: int)
    requires
        s.no_duplicates(),
        0 <= i < s.len(),
        0 <= f < keep_live(s, dead).len(),
        keep_live(s, dead)[f] == s[i],
    ensures
        keep_live(s, dead.insert(s[i])) == keep_live(s, dead).remove(f),
    decreases s.len(),
{
    lemma_keep_live_members(s, dead);
    let x = s[i];
    let t = s.drop_last();
    assert(t.no_duplicates());
    if i == s.len() - 1 {
        lemma_keep_live_unique(s, dead);
        lemma_keep_live_members(t, dead);
        assert(!t.contains(x)) by {
            if t.contains(x) {
                let k = choose|k: int| 0 <= k < t.len() && t[k] == x;
                assert(s[k] == s[i]);
            }
        }
        lemma_keep_live_not_member(t, dead, x);
        assert(keep_live(s, dead) == keep_live(t, dead).push(x));
        assert(f == keep_live(t, dead).len()) by {
            if f < keep_live(t, dead).len() {
                assert(t.contains(keep_live(t, dead)[f]));
            }
        }
        assert(keep_live(s, dead).remove(f) =~= keep_live(t, dead));
    } else {
        lemma_keep_live_unique(s, dead);
        let l = keep_live(s, dead);
        let lt = keep_live(t, dead);
        assert(s.last() != x);
        if !dead.contains(s.last()) {
            assert(l == lt.push(s.last()));
            assert(f < lt.len()) by {
                if f == lt.len() {
                    assert(l[f] == s.last());
                    assert(s[s.len() - 1] == s[i]);
                }
            }
            assert(lt[f] == t[i]);
            lemma_live_dead_one(t, dead, i, f);
            assert(lt.remove(f).push(s.last()) =~= lt.push(s.last()).remove(f));
        } else {
            assert(l == lt);
            lemma_live_dead_one(t, dead, i, f);
        }
    }
}

/// Entries that do not occur are not live, and marking them dead changes nothing.
proof fn lemma_keep_live_not_member(s: Seq<usize>, dead: Set<usize>, x: usize)
    requires
        !s.contains(x),
    ensures
        keep_live(s, dead.insert(x)) == keep_live(s, dead),
    decreases s.len(),
{
    if s.len() > 0 {
        assert(!s.drop_last().contains(x)) by {
            if s.drop_last().contains(x) {
                let k = choose|k: int| 0 <= k < s.drop_last().len() && s.drop_last()[k] == x;
                assert(s[k] == x);
            }
        }
        assert(s.last() != x) by {
            assert(s[s.len() - 1] == s.last());
        }
        lemma_keep_live_not_member(s.drop_last(), dead, x);
    }
}

/// Two documents agree on everything but their inserted rows and dirty flag.
pub open spec fn same_overlay_except_inserted(a: CsvDocument, b: CsvDocument) -> bool {
    &&& a.source() == b.source()
    &&& a.spec_dialect() == b.spec_dialect()
    &&& a.record_list() == b.record_list()
    &&& a.data_record() == b.data_record()
    &&& a.spec_headers() == b.spec_headers()
    &&& a.skipped() == b.skipped()
    &&& a.visible_rows() == b.visible_rows()
    &&& a.visible_columns() == b.visible_columns()
    &&& a.column_order_list() == b.column_order_list()
    &&& a.inserted_column_count() == b.inserted_column_count()
    &&& a.deleted_row_set() == b.deleted_row_set()
    &&& a.deleted_column_set() == b.deleted_column_set()
    &&& a.filter_list() == b.filter_list()
    &&& a.sort_key_list() == b.sort_key_list()
}

/// Two documents agree on everything but their edits.
pub open spec fn same_overlay_except_edits(a: CsvDocument, b: CsvDocument) -> bool {
    &&& a.source() == b.source()
    &&& a.spec_dialect() == b.spec_dialect()
    &&& a.record_list() == b.record_list()
    &&& a.data_record() == b.data_record()
    &&& a.spec_headers() == b.spec_headers()
    &&& a.skipped() == b.skipped()
    &&& a.visible_rows() == b.visible_rows()
    &&& a.visible_columns() == b.visible_columns()
    &&& a.column_order_list() == b.column_order_list()
    &&& a.inserted() == b.inserted()
    &&& a.inserted_column_count() == b.inserted_column_count()
    &&& a.deleted_row_set() == b.deleted_row_set()
    &&& a.deleted_column_set() == b.deleted_column_set()
    &&& a.filter_list() == b.filter_list()
    &&& a.sort_key_list() == b.sort_key_list()
}

proof fn lemma_edit_lookup_update(edits: Seq<EditView>, i: int, e: EditView)
    requires
        edits_unique(edits),
        0 <= i < edits.len(),
        e.coord == edits[i].coord,
    ensures
        edits_unique(edits.update(i, e)),
        forall|c: CellCoord|
            #[trigger] edit_lookup(edits.update(i, e), c) == if c == e.coord {
                Some(e.value)
            } else {
                edit_lookup(edits, c)
            },
    decreases edits.len(),
{
    let u = edits.update(i, e);
    assert(edits_unique(u)) by {
        assert forall|a: int, b: int| 0 <= a < b < u.len() implies (#[trigger] u[a]).coord != (
        #[trigger] u[b]).coord by {
            assert(edits[a].coord != edits[b].coord);
        }
    }
    assert forall|c: CellCoord| #[trigger]
        edit_lookup(edits.update(i, e), c) == if c == e.coord {
            Some(e.value)
        } else {
            edit_lookup(edits, c)
        } by {
        if c == e.coord {
            lemma_edit_lookup_unique(u, c, i);
        } else {
            lemma_edit_lookup_other(edits, i, e, c);
        }
    }
}

proof fn lemma_edit_lookup_other(edits: Seq<EditView>, i: int, e: EditView, c: CellCoord)
    requires
        0 <= i < edits.len(),
        e.coord == edits[i].coord,
        c != e.coord,
    ensures
        edit_lookup(edits.update(i, e), c) == edit_lookup(edits, c),
    decreases edits.len(),
{
    let u = edits.update(i, e);
    if i < edits.len() - 1 {
        assert(u.drop_last() =~= edits.drop_last().update(i, e));
        assert(u.last() == edits.last());
        lemma_edit_lookup_other(edits.drop_last(), i, e, c);
    } else {
        assert(u.drop_last() =~= edits.drop_last());
    }
}

proof fn lemma_edit_lookup_push(edits: Seq<EditView>, e: EditView)
    requires
        edits_unique(edits),
        edit_lookup(edits, e.coord) is None,
    ensures
        edits_unique(edits.push(e)),
        forall|c: CellCoord|
            #[trigger] edit_lookup(edits.push(e), c) == if c == e.coord {
                Some(e.value)
            } else {
                edit_lookup(edits, c)
            },
{
    let p = edits.push(e);
    assert(p.drop_last() =~= edits);
    assert(edits_unique(p)) by {
        assert forall|a: int, b: int| 0 <= a < b < p.len() implies (#[trigger] p[a]).coord != (
        #[trigger] p[b]).coord by {
            if b == edits.len() {
                if p[a].coord == e.coord {
                    lemma_edit_lookup_unique(edits, e.coord, a);
                }
            } else {
                assert(edits[a].coord != edits[b].coord);
            }
        }
    }
}

proof fn lemma_edit_lookup_unique(edits: Seq<EditView>, c: CellCoord, i: int)
    requires
        edits_unique(edits),
        0 <= i < edits.len(),
        edits[i].coord == c,
    ensures
        edit_lookup(edits, c) == Some(edits[i].value),
    decreases edits.len(),
{
    if i < edits.len() - 1 {
        assert(edits.last().coord != c) by {
            assert(edits[i].coord != edits[edits.len() - 1].coord);
        }
        assert(edits_unique(edits.drop_last())) by {
            assert forall|a: int, b: int|
                0 <= a < b < edits.drop_last().len() implies (
                #[trigger] edits.drop_last()[a]).coord != (#[trigger] edits.drop_last()[b]).coord by {
                assert(edits[a].coord != edits[b].coord);
            }
        }
        lemma_edit_lookup_unique(edits.drop_last(), c, i);
    }
}

proof fn lemma_edit_lookup_absent(edits: Seq<EditView>, c: CellCoord)
    requires
        forall|j: int| 0 <= j < edits.len() ==> (#[trigger] edits[j]).coord != c,
    ensures
        edit_lookup(edits, c) is None,
    decreases edits.len(),
{
    if edits.len() > 0 {
        assert(edits[edits.len() - 1].coord != c);
        assert forall|j: int| 0 <= j < edits.drop_last().len() implies (
        #[trigger] edits.drop_last()[j]).coord != c by {
            assert(edits[j].coord != c);
        }
        lemma_edit_lookup_absent(edits.drop_last(), c);
    }
}


/// Two documents hold the same table: everything but the shown source rows,
/// the filters and the sort keys agrees.
pub open spec fn same_table(a: CsvDocument, b: CsvDocument) -> bool {
    &&& a.source() == b.source()
    &&& a.spec_dialect() == b.spec_dialect()
    &&& a.record_list() == b.record_list()
    &&& a.data_record() == b.data_record()
    &&& a.spec_headers() == b.spec_headers()
    &&& a.skipped() == b.skipped()
    &&& a.visible_columns() == b.visible_columns()
    &&& a.column_order_list() == b.column_order_list()
    &&& a.inserted() == b.inserted()
    &&& a.inserted_column_count() == b.inserted_column_count()
    &&& a.edit_list() == b.edit_list()
    &&& a.deleted_row_set() == b.deleted_row_set()
    &&& a.deleted_column_set() == b.deleted_column_set()
}

/// What a data row shows in a display column: its edit there, else its
/// source text; nothing outside the table.
pub open spec fn data_row_cell(doc: CsvDocument, data_row: usize, column: int) -> Option<Seq<char>> {
    match doc.spec_real_column(column) {
        None => None,
        Some(rc) => match edit_lookup(doc.edit_list(), CellCoord { row: data_row, column: rc }) {
            Some(v) => Some(v),
            None => if data_row < doc.data_record().len() && doc.data_record()[data_row as int]
                < doc.record_list().len() {
                Some(doc.source_value(data_row as int, rc as int))
            } else {
                None
            },
        },
    }
}

/// Edits and texts follow their rows: a shown data row shows what that data
/// row holds, wherever sorting and filtering put it; and two documents with
/// the same table (as sorting and filtering leave it) give every data row the
/// same cells.
pub proof fn lemma_cells_follow_rows(a: CsvDocument, b: CsvDocument)
    requires
        same_table(a, b),
    ensures
        forall|row: int, column: int|
            0 <= row < a.visible_rows().len() ==> #[trigger] a.spec_cell(row, column) == data_row_cell(
                a,
                a.visible_rows()[row],
                column,
            ),
        forall|d: usize, column: int| #[trigger] data_row_cell(a, d, column) == data_row_cell(b, d, column),
{
}

/// The filter rules with their columns given as display positions; rules on
/// deleted columns are left out.
pub open spec fn shown_rules(doc: CsvDocument, rules: Seq<RuleView>) -> Seq<RuleView>
    decreases rules.len(),
{
    if rules.len() == 0 {
        Seq::empty()
    } else {
        let p = shown_rules(doc, rules.drop_last());
        let r = rules.last();
        match doc.spec_visible_column(r.column) {
            Some(c) => p.push(RuleView { column: c, operator: r.operator, value: r.value }),
            None => p,
        }
    }
}

/// The sort keys with their columns given as display positions; keys on
/// deleted columns are left out.
pub open spec fn shown_keys(doc: CsvDocument, keys: Seq<SortKey>) -> Seq<SortKey>
    decreases keys.len(),
{
    if keys.len() == 0 {
        Seq::empty()
    } else {
        let p = shown_keys(doc, keys.drop_last());
        let k = keys.last();
        match doc.spec_visible_column(k.column) {
            Some(c) => p.push(SortKey { column: c, direction: k.direction }),
            None => p,
        }
    }
}

impl CsvDocument {
    /// Sets or clears the simple filter of the column shown at `column`.
    ///
    /// Rules already on that column are dropped, the new filter (if any) is
    /// added as a rule, and the shown rows are recomputed.
    pub fn set_filter<F: Fn(&str) -> Option<u64> + Sync>(
        &mut self,
        column: usize,
        filter: Option<ColumnFilter>,
        numbers: &F,
    ) -> (r: Result<(), CsvError>)
        requires
            old(self).wf(),
            is_number_reader(numbers),
        ensures
            final(self).wf(),
            column >= old(self).visible_columns().len() ==> r == Err::<(), CsvError>(
                CsvError::InvalidColumn { column },
            ) && *final(self) == *old(self),
            column < old(self).visible_columns().len() ==> {
                let rc = old(self).visible_columns()[column as int];
                let kept = rules_without(old(self).filter_list(), rc);
                &&& r is Ok
                &&& final(self).filter_list() == match filter {
                    Some(f) => kept.push(spec_legacy_rule(rc, f)),
                    None => kept,
                }
                &&& refreshed(*final(self), numbers)
                &&& same_table(*final(self), *old(self))
                &&& final(self).sort_key_list() == old(self).sort_key_list()
                &&& final(self).spec_dirty() == old(self).spec_dirty()
                &&& final(self).spec_path() == old(self).spec_path()
            },
    {
        let rc = match self.real_column(column) {
            Some(c) => c,
            None => {
                return Err(CsvError::InvalidColumn { column });
            },
        };
        let ghost old_rules = rules_view(self.filters@);
        let mut kept: Vec<FilterRule> = Vec::new();
        let mut i: usize = 0;
        while i < self.filters.len()
            invariant
                i <= self.filters@.len(),
                old_rules == rules_view(self.filters@),
                rules_view(kept@) == rules_without(old_rules.take(i as int), rc),
            decreases self.filters@.len() - i,
        {
            proof {
                assert(old_rules.take(i + 1).drop_last() =~= old_rules.take(i as int));
                assert(old_rules.take(i + 1).last() == self.filters@[i as int]@);
            }
            if self.filters[i].column != rc {
                let ghost before = kept@;
                kept.push(clone_rule(&self.filters[i]));
                proof {
                    assert(rules_view(kept@) =~= rules_view(before).push(self.filters@[i as int]@));
                }
            }
            i += 1;
        }
        proof {
            assert(old_rules.take(i as int) =~= old_rules);
        }
        match filter {
            Some(f) => {
                let ghost before = kept@;
                kept.push(legacy_filter_rule(rc, f));
                proof {
                    assert(rules_view(kept@) =~= rules_view(before).push(kept@.last()@));
                }
            },
            None => {},
        }
        self.filters = kept;
        self.refresh_view(numbers);
        Ok(())
    }

    /// Replaces the filter rules (columns given as display positions) and
    /// recomputes the shown rows.
    ///
    /// A rule naming a column outside the table fails the whole call with
    /// `InvalidColumn` for the first such rule, and nothing changes.
    pub fn set_filter_rules<F: Fn(&str) -> Option<u64> + Sync>(
        &mut self,
        rules: Vec<FilterRule>,
        numbers: &F,
    ) -> (r: Result<(), CsvError>)
        requires
            old(self).wf(),
            is_number_reader(numbers),
        ensures
            final(self).wf(),
            rules_to_real(*old(self), rules_view(rules@)) is None ==> r == Err::<(), CsvError>(
                CsvError::InvalidColumn {
                    column: rules@[first_bad_rule(*old(self), rules_view(rules@))].column,
                },
            ) && *final(self) == *old(self),
            rules_to_real(*old(self), rules_view(rules@)) is Some ==> {
                &&& r is Ok
                &&& final(self).filter_list() == rules_to_real(*old(self), rules_view(rules@))->0
                &&& refreshed(*final(self), numbers)
                &&& same_table(*final(self), *old(self))
                &&& final(self).sort_key_list() == old(self).sort_key_list()
                &&& final(self).spec_dirty() == old(self).spec_dirty()
                &&& final(self).spec_path() == old(self).spec_path()
            },
    {
        let ghost rv = rules_view(rules@);
        let ghost vis = self.visible_columns();
        let mut real_rules: Vec<FilterRule> = Vec::new();
        let mut i: usize = 0;
        while i < rules.len()
            invariant
                self.wf(),
                i <= rules@.len(),
                rv == rules_view(rules@),
                vis == self.visible_columns(),
                real_rules@.len() == i,
                forall|j: int| 0 <= j < i ==> (#[trigger] rv[j]).column < vis.len(),
                forall|j: int|
                    0 <= j < i ==> (#[trigger] real_rules@[j])@ == (RuleView {
                        column: vis[rv[j].column as int],
                        operator: rv[j].operator,
                        value: rv[j].value,
                    }),
            decreases rules@.len() - i,
        {
            let rule = &rules[i];
            assert(rv[i as int] == rule@);
            let rc = match self.real_column(rule.column) {
                Some(c) => c,
                None => {
                    proof {
                        assert(!(forall|k: int| 0 <= k < rv.len() ==> (#[trigger] rv[k]).column
                            < vis.len()));
                        let b = first_bad_rule(*self, rv);
                        assert(0 <= i < rv.len() && rv[i as int].column >= vis.len() && forall|
                            j: int,
                        | 0 <= j < i ==> (#[trigger] rv[j]).column < vis.len());
                        assert(b == i) by {
                            if b < i {
                                assert(rv[b].column < vis.len());
                            } else if b > i {
                                assert(rv[i as int].column < vis.len());
                            }
                        }
                    }
                    return Err(CsvError::InvalidColumn { column: rule.column });
                },
            };
            real_rules.push(FilterRule { column: rc, operator: rule.operator, value: rule.value.clone() });
            i += 1;
        }
        proof {
            assert(rules_view(real_rules@) =~= rules_to_real(*self, rv)->0);
        }
        self.filters = real_rules;
        self.refresh_view(numbers);
        Ok(())
    }

    /// The filter rules with their columns as display positions (rules on
    /// deleted columns are left out).
    pub fn filter_rules(&self) -> (r: Vec<FilterRule>)
        requires
            self.wf(),
        ensures
            rules_view(r@) == shown_rules(*self, self.filter_list()),
    {
        let ghost all = rules_view(self.filters@);
        let mut out: Vec<FilterRule> = Vec::new();
        let mut i: usize = 0;
        while i < self.filters.len()
            invariant
                i <= self.filters@.len(),
                all == rules_view(self.filters@),
                rules_view(out@) == shown_rules(*self, all.take(i as int)),
            decreases self.filters@.len() - i,
        {
            proof {
                assert(all.take(i + 1).drop_last() =~= all.take(i as int));
                assert(all.take(i + 1).last() == self.filters@[i as int]@);
            }
            let rule = &self.filters[i];
            match self.visible_column(rule.column) {
                Some(c) => {
                    let ghost before = out@;
                    out.push(FilterRule { column: c, operator: rule.operator, value: rule.value.clone() });
                    proof {
                        assert(rules_view(out@) =~= rules_view(before).push(out@.last()@));
                    }
                },
                None => {},
            }
            i += 1;
        }
        proof {
            assert(all.take(i as int) =~= all);
        }
        out
    }

    /// Replaces the sort keys (columns given as display positions) and
    /// recomputes the shown rows.
    ///
    /// A key naming a column outside the table fails the whole call with
    /// `InvalidColumn` for the first such key, and nothing changes.
    pub fn sort_by<F: Fn(&str) -> Option<u64> + Sync>(
        &mut self,
        keys: Vec<SortKey>,
        numbers: &F,
    ) -> (r: Result<(), CsvError>)
        requires
            old(self).wf(),
            is_number_reader(numbers),
        ensures
            final(self).wf(),
            keys_to_real(*old(self), keys@) is None ==> r == Err::<(), CsvError>(
                CsvError::InvalidColumn { column: keys@[first_bad_key(*old(self), keys@)].column },
            ) && *final(self) == *old(self),
            keys_to_real(*old(self), keys@) is Some ==> {
                &&& r is Ok
                &&& final(self).sort_key_list() == keys_to_real(*old(self), keys@)->0
                &&& refreshed(*final(self), numbers)
                &&& same_table(*final(self), *old(self))
                &&& final(self).filter_list() == old(self).filter_list()
                &&& final(self).spec_dirty() == old(self).spec_dirty()
                &&& final(self).spec_path() == old(self).spec_path()
            },
    {
        let ghost vis = self.visible_columns();
        let mut real_keys: Vec<SortKey> = Vec::new();
        let mut i: usize = 0;
        while i < keys.len()
            invariant
                self.wf(),
                i <= keys@.len(),
                vis == self.visible_columns(),
                real_keys@.len() == i,
                forall|j: int| 0 <= j < i ==> (#[trigger] keys@[j]).column < vis.len(),
                forall|j: int|
                    0 <= j < i ==> #[trigger] real_keys@[j] == (SortKey {
                        column: vis[keys@[j].column as int],
                        direction: keys@[j].direction,
                    }),
            decreases keys@.len() - i,
        {
            let key = keys[i];
            let rc = match self.real_column(key.column) {
                Some(c) => c,
                None => {
                    proof {
                        let ks = keys@;
                        assert(!(forall|k: int| 0 <= k < ks.len() ==> (#[trigger] ks[k]).column
                            < vis.len()));
                        let b = first_bad_key(*self, ks);
                        assert(0 <= i < ks.len() && ks[i as int].column >= vis.len() && forall|
                            j: int,
                        | 0 <= j < i ==> (#[trigger] ks[j]).column < vis.len());
                        assert(b == i) by {
                            if b < i {
                                assert(ks[b].column < vis.len());
                            } else if b > i {
                                assert(ks[i as int].column < vis.len());
                            }
                        }
                    }
                    return Err(CsvError::InvalidColumn { column: key.column });
                },
            };
            real_keys.push(SortKey { column: rc, direction: key.direction });
            i += 1;
        }
        proof {
            assert(real_keys@ =~= keys_to_real(*self, keys@)->0);
        }
        self.sort_keys = real_keys;
        self.refresh_view(numbers);
        Ok(())
    }

    /// The sort keys with their columns as display positions (keys on deleted
    /// columns are left out).
    pub fn sort_keys(&self) -> (r: Vec<SortKey>)
        requires
            self.wf(),
        ensures
            r@ == shown_keys(*self, self.sort_key_list()),
    {
        let mut out: Vec<SortKey> = Vec::new();
        let mut i: usize = 0;
        while i < self.sort_keys.len()
            invariant
                i <= self.sort_keys@.len(),
                out@ == shown_keys(*self, self.sort_keys@.take(i as int)),
            decreases self.sort_keys@.len() - i,
        {
            proof {
                assert(self.sort_keys@.take(i + 1).drop_last() =~= self.sort_keys@.take(i as int));
            }
            let key = self.sort_keys[i];
            match self.visible_column(key.column) {
                Some(c) => {
                    out.push(SortKey { column: c, direction: key.direction });
                },
                None => {},
            }
            i += 1;
        }
        proof {
            assert(self.sort_keys@.take(i as int) =~= self.sort_keys@);
        }
        out
    }
}


/// A copy of a list of numbers.
fn copy_usizes(v: &Vec<usize>) -> (r: Vec<usize>)
    ensures
        r@ == v@,
{
    let mut out: Vec<usize> = Vec::new();
    let mut i: usize = 0;
    while i < v.len()
        invariant
            i <= v@.len(),
            out@ == v@.take(i as int),
        decreases v@.len() - i,
    {
        out.push(v[i]);
        i += 1;
        assert(out@ =~= v@.take(i as int));
    }
    assert(v@.take(i as int) =~= v@);
    out
}

/// A copy of a list of texts.
fn copy_texts(v: &Vec<String>) -> (r: Vec<String>)
    ensures
        texts(r@) == texts(v@),
{
    let mut out: Vec<String> = Vec::new();
    let mut i: usize = 0;
    while i < v.len()
        invariant
            i <= v@.len(),
            out@.len() == i,
            forall|j: int| 0 <= j < i ==> (#[trigger] out@[j])@ == v@[j]@,
        decreases v@.len() - i,
    {
        out.push(v[i].clone());
        i += 1;
    }
    assert(texts(out@) =~= texts(v@));
    out
}

/// A copy of a list of rows of texts.
fn copy_grid(v: &Vec<Vec<String>>) -> (r: Vec<Vec<String>>)
    ensures
        grid(r@) == grid(v@),
{
    let mut out: Vec<Vec<String>> = Vec::new();
    let mut i: usize = 0;
    while i < v.len()
        invariant
            i <= v@.len(),
            out@.len() == i,
            forall|j: int| 0 <= j < i ==> texts((#[trigger] out@[j])@) == texts(v@[j]@),
        decreases v@.len() - i,
    {
        out.push(copy_texts(&v[i]));
        i += 1;
    }
    assert(grid(out@) =~= grid(v@));
    out
}

/// A copy of the edits.
fn copy_edits(v: &Vec<CellEdit>) -> (r: Vec<CellEdit>)
    ensures
        edit_views(r@) == edit_views(v@),
{
    let mut out: Vec<CellEdit> = Vec::new();
    let mut i: usize = 0;
    while i < v.len()
        invariant
            i <= v@.len(),
            out@.len() == i,
            forall|j: int| 0 <= j < i ==> (#[trigger] out@[j])@ == v@[j]@,
        decreases v@.len() - i,
    {
        out.push(CellEdit { coord: v[i].coord, value: v[i].value.clone() });
        i += 1;
    }
    assert(edit_views(out@) =~= edit_views(v@));
    out
}

/// A copy of the sort keys.
fn copy_keys(v: &Vec<SortKey>) -> (r: Vec<SortKey>)
    ensures
        r@ == v@,
{
    let mut out: Vec<SortKey> = Vec::new();
    let mut i: usize = 0;
    while i < v.len()
        invariant
            i <= v@.len(),
            out@ == v@.take(i as int),
        decreases v@.len() - i,
    {
        out.push(v[i]);
        i += 1;
        assert(out@ =~= v@.take(i as int));
    }
    assert(v@.take(i as int) =~= v@);
    out
}

impl CsvDocumentSnapshot {
    /// The snapshot holds exactly the editable state of `doc`.
    pub closed spec fn holds(self, doc: CsvDocument) -> bool {
        &&& self.view_rows@ == doc.view_rows@
        &&& self.column_order@ == doc.column_order@
        &&& grid(self.inserted_rows@) == grid(doc.inserted_rows@)
        &&& grid(self.inserted_columns@) == grid(doc.inserted_columns@)
        &&& self.deleted_rows@ == doc.deleted_rows@
        &&& self.deleted_columns@ == doc.deleted_columns@
        &&& edit_views(self.edits@) == edit_views(doc.edits@)
        &&& rules_view(self.filters@) == rules_view(doc.filters@)
        &&& self.sort_keys@ == doc.sort_keys@
        &&& self.dirty == doc.dirty
    }

    /// The snapshot is consistent in itself: no duplicates, each cell edited
    /// once, column numbers below the count of columns.
    pub closed spec fn wf(self) -> bool {
        &&& self.view_rows@.no_duplicates()
        &&& self.column_order@.no_duplicates()
        &&& forall|k: int|
            0 <= k < self.column_order@.len() ==> #[trigger] self.column_order@[k]
                < self.column_order@.len() + self.inserted_columns@.len()
        &&& forall|k: int|
            0 <= k < self.deleted_columns@.len() ==> #[trigger] self.deleted_columns@[k]
                < self.column_order@.len() + self.inserted_columns@.len()
        &&& self.deleted_rows@.no_duplicates()
        &&& self.deleted_columns@.no_duplicates()
        &&& edits_unique(edit_views(self.edits@))
        &&& self.column_order@.len() + self.inserted_columns@.len() <= usize::MAX
    }

    /// The snapshot can be put back on `doc`: it is consistent, and its shown
    /// rows are rows of the document.
    pub closed spec fn fits(self, doc: CsvDocument) -> bool {
        &&& self.wf()
        &&& doc.data_rows@.len() + self.inserted_rows@.len() <= usize::MAX
        &&& forall|k: int|
            0 <= k < self.view_rows@.len() ==> #[trigger] self.view_rows@[k] < doc.data_rows@.len()
        &&& self.view_rows@.len() <= doc.data_rows@.len()
    }

    /// Two snapshots hold the same state.
    pub closed spec fn same_state(self, other: CsvDocumentSnapshot) -> bool {
        &&& self.view_rows@ == other.view_rows@
        &&& self.column_order@ == other.column_order@
        &&& grid(self.inserted_rows@) == grid(other.inserted_rows@)
        &&& grid(self.inserted_columns@) == grid(other.inserted_columns@)
        &&& self.deleted_rows@ == other.deleted_rows@
        &&& self.deleted_columns@ == other.deleted_columns@
        &&& edit_views(self.edits@) == edit_views(other.edits@)
        &&& rules_view(self.filters@) == rules_view(other.filters@)
        &&& self.sort_keys@ == other.sort_keys@
        &&& self.dirty == other.dirty
    }

    /// Whether the snapshot can be put back on `doc`.
    pub fn fits_document(&self, doc: &CsvDocument) -> (r: bool)
        requires
            self.wf(),
        ensures
            r == self.fits(*doc),
    {
        let n = doc.data_rows.len();
        if self.inserted_rows.len() > usize::MAX - n {
            return false;
        }
        let mut i: usize = 0;
        while i < self.view_rows.len()
            invariant
                i <= self.view_rows@.len(),
                n == doc.data_rows@.len(),
                forall|k: int| 0 <= k < i ==> #[trigger] self.view_rows@[k] < n,
            decreases self.view_rows@.len() - i,
        {
            if self.view_rows[i] >= n {
                return false;
            }
            i += 1;
        }
        proof {
            lemma_unique_below_len(self.view_rows@, n as int);
        }
        true
    }

    /// Whether two snapshots hold the same state.
    pub fn same_as(&self, other: &CsvDocumentSnapshot) -> (r: bool)
        ensures
            r == self.same_state(*other),
    {
        self.dirty == other.dirty && equal_usizes(&self.view_rows, &other.view_rows) && equal_usizes(
            &self.column_order,
            &other.column_order,
        ) && equal_grids(&self.inserted_rows, &other.inserted_rows) && equal_grids(
            &self.inserted_columns,
            &other.inserted_columns,
        ) && equal_usizes(&self.deleted_rows, &other.deleted_rows) && equal_usizes(
            &self.deleted_columns,
            &other.deleted_columns,
        ) && equal_edits(&self.edits, &other.edits) && equal_rules(&self.filters, &other.filters)
            && equal_keys(&self.sort_keys, &other.sort_keys)
    }
}

/// Whether two lists of numbers are equal.
fn equal_usizes(a: &Vec<usize>, b: &Vec<usize>) -> (r: bool)
    ensures
        r == (a@ == b@),
{
    if a.len() != b.len() {
        return false;
    }
    let mut i: usize = 0;
    while i < a.len()
        invariant
            a@.len() == b@.len(),
            i <= a@.len(),
            forall|k: int| 0 <= k < i ==> a@[k] == b@[k],
        decreases a@.len() - i,
    {
        if a[i] != b[i] {
            return false;
        }
        i += 1;
    }
    assert(a@ =~= b@);
    true
}

/// Whether two lists of texts are equal.
fn equal_texts(a: &Vec<String>, b: &Vec<String>) -> (r: bool)
    ensures
        r == (texts(a@) == texts(b@)),
{
    if a.len() != b.len() {
        assert(texts(a@).len() != texts(b@).len());
        return false;
    }
    let mut i: usize = 0;
    while i < a.len()
        invariant
            a@.len() == b@.len(),
            i <= a@.len(),
            forall|k: int| 0 <= k < i ==> a@[k]@ == b@[k]@,
        decreases a@.len() - i,
    {
        if a[i] != b[i] {
            assert(texts(a@)[i as int] != texts(b@)[i as int]);
            return false;
        }
        i += 1;
    }
    assert(texts(a@) =~= texts(b@));
    true
}

/// Whether two lists of rows of texts are equal.
fn equal_grids(a: &Vec<Vec<String>>, b: &Vec<Vec<String>>) -> (r: bool)
    ensures
        r == (grid(a@) == grid(b@)),
{
    if a.len() != b.len() {
        assert(grid(a@).len() != grid(b@).len());
        return false;
    }
    let mut i: usize = 0;
    while i < a.len()
        invariant
            a@.len() == b@.len(),
            i <= a@.len(),
            forall|k: int| 0 <= k < i ==> texts(a@[k]@) == texts(b@[k]@),
        decreases a@.len() - i,
    {
        if !equal_texts(&a[i], &b[i]) {
            assert(grid(a@)[i as int] != grid(b@)[i as int]);
            return false;
        }
        i += 1;
    }
    assert(grid(a@) =~= grid(b@));
    true
}

/// Whether two lists of edits are equal.
fn equal_edits(a: &Vec<CellEdit>, b: &Vec<CellEdit>) -> (r: bool)
    ensures
        r == (edit_views(a@) == edit_views(b@)),
{
    if a.len() != b.len() {
        assert(edit_views(a@).len() != edit_views(b@).len());
        return false;
    }
    let mut i: usize = 0;
    while i < a.len()
        invariant
            a@.len() == b@.len(),
            i <= a@.len(),
            forall|k: int| 0 <= k < i ==> a@[k]@ == b@[k]@,
        decreases a@.len() - i,
    {
        if a[i].coord != b[i].coord || a[i].value != b[i].value {
            assert(edit_views(a@)[i as int] != edit_views(b@)[i as int]);
            return false;
        }
        i += 1;
    }
    assert(edit_views(a@) =~= edit_views(b@));
    true
}

/// Whether two lists of rules are equal.
fn equal_rules(a: &Vec<FilterRule>, b: &Vec<FilterRule>) -> (r: bool)
    ensures
        r == (rules_view(a@) == rules_view(b@)),
{
    if a.len() != b.len() {
        assert(rules_view(a@).len() != rules_view(b@).len());
        return false;
    }
    let mut i: usize = 0;
    while i < a.len()
        invariant
            a@.len() == b@.len(),
            i <= a@.len(),
            forall|k: int| 0 <= k < i ==> a@[k]@ == b@[k]@,
        decreases a@.len() - i,
    {
        if a[i].column != b[i].column || a[i].operator != b[i].operator || a[i].value != b[i].value {
            assert(rules_view(a@)[i as int] != rules_view(b@)[i as int]);
            return false;
        }
        i += 1;
    }
    assert(rules_view(a@) =~= rules_view(b@));
    true
}

/// Whether two lists of sort keys are equal.
fn equal_keys(a: &Vec<SortKey>, b: &Vec<SortKey>) -> (r: bool)
    ensures
        r == (a@ == b@),
{
    if a.len() != b.len() {
        return false;
    }
    let mut i: usize = 0;
    while i < a.len()
        invariant
            a@.len() == b@.len(),
            i <= a@.len(),
            forall|k: int| 0 <= k < i ==> a@[k] == b@[k],
        decreases a@.len() - i,
    {
        if a[i].column != b[i].column || a[i].direction != b[i].direction {
            return false;
        }
        i += 1;
    }
    assert(a@ =~= b@);
    true
}

/// When one snapshot holds a document's state, another holds it exactly when
/// the two hold the same state.
pub proof fn lemma_snapshot_agree(a: CsvDocumentSnapshot, b: CsvDocumentSnapshot, doc: CsvDocument)
    requires
        a.holds(doc),
    ensures
        a.same_state(b) <==> b.holds(doc),
{
}

/// Snapshots that hold the same state hold the state of the same documents.
pub proof fn lemma_same_state_holds(a: CsvDocumentSnapshot, b: CsvDocumentSnapshot, doc: CsvDocument)
    requires
        a.same_state(b),
    ensures
        a.holds(doc) <==> b.holds(doc),
{
}

impl CsvDocument {
    /// A copy of everything that editing changes, to put back later.
    pub fn snapshot(&self) -> (s: CsvDocumentSnapshot)
        requires
            self.wf(),
        ensures
            s.holds(*self),
            s.wf(),
            s.fits(*self),
    {
        let inserted_rows = copy_grid(&self.inserted_rows);
        let inserted_columns = copy_grid(&self.inserted_columns);
        proof {
            assert(inserted_rows@.len() == grid(inserted_rows@).len());
            assert(self.inserted_rows@.len() == grid(self.inserted_rows@).len());
            assert(inserted_columns@.len() == grid(inserted_columns@).len());
            assert(self.inserted_columns@.len() == grid(self.inserted_columns@).len());
        }
        CsvDocumentSnapshot {
            view_rows: copy_usizes(&self.view_rows),
            column_order: copy_usizes(&self.column_order),
            inserted_rows,
            inserted_columns,
            deleted_rows: copy_usizes(&self.deleted_rows),
            deleted_columns: copy_usizes(&self.deleted_columns),
            edits: copy_edits(&self.edits),
            filters: clone_rules(&self.filters),
            sort_keys: copy_keys(&self.sort_keys),
            dirty: self.dirty,
        }
    }

    /// Puts back the editing state saved in `snapshot`; the source, its index
    /// and the path are kept.
    pub fn restore_snapshot(&mut self, snapshot: CsvDocumentSnapshot)
        requires
            old(self).wf(),
            snapshot.fits(*old(self)),
        ensures
            final(self).wf(),
            snapshot.holds(*final(self)),
            same_base(*final(self), *old(self)),
            final(self).spec_path() == old(self).spec_path(),
    {
        self.view_rows = snapshot.view_rows;
        self.column_order = snapshot.column_order;
        self.inserted_rows = snapshot.inserted_rows;
        self.inserted_columns = snapshot.inserted_columns;
        self.deleted_rows = snapshot.deleted_rows;
        self.deleted_columns = snapshot.deleted_columns;
        self.edits = snapshot.edits;
        self.filters = snapshot.filters;
        self.sort_keys = snapshot.sort_keys;
        self.dirty = snapshot.dirty;
    }
}

/// Putting back a snapshot undoes every change made since it was taken: the
/// document shows the same overlay, the same cells and the same counts, and
/// has the same dirty flag, as when the snapshot was taken.
pub proof fn lemma_restore_undoes(before: CsvDocument, snapshot: CsvDocumentSnapshot, after: CsvDocument)
    requires
        snapshot.holds(before),
        snapshot.holds(after),
        same_base(after, before),
    ensures
        same_overlay(after, before),
        after.spec_dirty() == before.spec_dirty(),
        after.spec_row_count() == before.spec_row_count(),
        after.spec_column_count() == before.spec_column_count(),
        forall|row: int, column: int| #[trigger] after.spec_cell(row, column) == before.spec_cell(row, column),
{
    assert(after.inserted_columns@.len() == grid(after.inserted_columns@).len());
    assert(before.inserted_columns@.len() == grid(before.inserted_columns@).len());
}


/// A cell's text, empty outside the table.
pub open spec fn cell_text(doc: CsvDocument, row: int, column: int) -> Seq<char> {
    match doc.spec_cell(row, column) {
        Some(v) => v,
        None => Seq::empty(),
    }
}

/// The shown table: every shown row, every column.
pub open spec fn table(doc: CsvDocument) -> Seq<Seq<Seq<char>>> {
    Seq::new(
        doc.spec_row_count(),
        |r: int| Seq::new(doc.spec_column_count(), |c: int| cell_text(doc, r, c)),
    )
}

/// A column's header text, empty when it has none.
pub open spec fn header_text(doc: CsvDocument, column: int) -> Seq<char> {
    match doc.spec_header(column) {
        Some(t) => t,
        None => Seq::empty(),
    }
}

/// The header texts of the first `n` columns.
pub open spec fn header_row(doc: CsvDocument, n: nat) -> Seq<Seq<char>> {
    Seq::new(n, |c: int| header_text(doc, c))
}

/// Columns kept when trimming: up to the last column with a header or a
/// value in one of `rows`.
pub open spec fn kept_width(doc: CsvDocument, rows: Seq<Seq<Seq<char>>>) -> nat {
    let h = if doc.spec_headers() is Some {
        used_width(header_row(doc, doc.spec_column_count()))
    } else {
        0
    };
    let w = widest(rows);
    if h > w {
        h
    } else {
        w
    }
}

/// The records written out: the rows kept aside, the header row (when there
/// is one, and when trimming left columns), then the shown rows. Trimming
/// drops empty rows and columns at the end.
pub open spec fn csv_records(doc: CsvDocument, trim: bool) -> Seq<Seq<Seq<char>>> {
    let t = table(doc);
    let nrows = if trim {
        used_rows(t)
    } else {
        t.len()
    };
    let ncols = if trim {
        kept_width(doc, t.take(nrows as int))
    } else {
        doc.spec_column_count()
    };
    let head = if doc.spec_headers() is Some && (ncols > 0 || !trim) {
        seq![header_row(doc, ncols)]
    } else {
        Seq::empty()
    };
    doc.skipped() + head + clip(t.take(nrows as int), ncols)
}

/// A row is used at least up to each of its non-empty values.
proof fn lemma_used_width_covers(row: Seq<Seq<char>>, c: int)
    requires
        0 <= c < row.len(),
        row[c].len() > 0,
    ensures
        used_width(row) > c,
    decreases row.len(),
{
    if row.last().len() == 0 {
        assert(c < row.len() - 1);
        assert(row.drop_last()[c] == row[c]);
        lemma_used_width_covers(row.drop_last(), c);
    }
}

/// Saving keeps the header row: in a document with a header row, every
/// column up to its last non-empty header is written with its header text,
/// right after the rows kept aside, whether or not any data row is kept.
pub proof fn lemma_saved_header_kept(doc: CsvDocument, c: int)
    requires
        doc.spec_headers() is Some,
        0 <= c < doc.spec_column_count(),
        header_text(doc, c).len() > 0,
    ensures
        csv_records(doc, true).len() > doc.skipped().len(),
        csv_records(doc, true)[doc.skipped().len() as int].len() > c,
        csv_records(doc, true)[doc.skipped().len() as int][c] == header_text(doc, c),
{
    let hr = header_row(doc, doc.spec_column_count());
    assert(hr[c] == header_text(doc, c));
    lemma_used_width_covers(hr, c);
    let t = table(doc);
    let ncols = kept_width(doc, t.take(used_rows(t) as int));
    assert(ncols > c);
    let recs = csv_records(doc, true);
    let k = doc.skipped().len() as int;
    assert(recs[k] == header_row(doc, ncols));
}

/// The text written out with a dialect.
pub open spec fn csv_text(doc: CsvDocument, d: CsvDialect, trim: bool) -> Seq<char> {
    records_text(csv_records(doc, trim), d)
}

/// Used rows never exceed the rows.
proof fn lemma_used_rows_bound(rows: Seq<Seq<Seq<char>>>)
    ensures
        used_rows(rows) <= rows.len(),
    decreases rows.len(),
{
    if rows.len() > 0 {
        lemma_used_rows_bound(rows.drop_last());
    }
}

impl CsvDocument {
    /// The shown row `row`: the text of every column.
    fn row_texts(&self, row: usize) -> (r: Vec<String>)
        requires
            self.wf(),
        ensures
            texts(r@) == Seq::new(self.spec_column_count(), |c: int| cell_text(*self, row as int, c)),
    {
        let m = self.column_count();
        let mut out: Vec<String> = Vec::new();
        let mut c: usize = 0;
        while c < m
            invariant
                self.wf(),
                m == self.spec_column_count(),
                c <= m,
                out@.len() == c,
                forall|k: int| 0 <= k < c ==> (#[trigger] out@[k])@ == cell_text(*self, row as int, k),
            decreases m - c,
        {
            let v = match self.cell(row, c) {
                Some(v) => v,
                None => String::new(),
            };
            out.push(v);
            c += 1;
        }
        assert(texts(out@) =~= Seq::new(self.spec_column_count(), |c: int| cell_text(*self, row as int, c)));
        out
    }

    /// Every shown row with the text of every column.
    fn table_texts(&self) -> (r: Vec<Vec<String>>)
        requires
            self.wf(),
        ensures
            grid(r@) == table(*self),
    {
        let n = self.row_count();
        let mut out: Vec<Vec<String>> = Vec::new();
        let mut r: usize = 0;
        while r < n
            invariant
                self.wf(),
                n == self.spec_row_count(),
                r <= n,
                out@.len() == r,
                forall|k: int| 0 <= k < r ==> texts((#[trigger] out@[k])@) == table(*self)[k],
            decreases n - r,
        {
            out.push(self.row_texts(r));
            r += 1;
        }
        assert(grid(out@) =~= table(*self));
        out
    }

    /// The header texts of the first `n` columns (empty where a column has none).
    fn header_texts(&self, n: usize) -> (r: Vec<String>)
        requires
            self.wf(),
        ensures
            texts(r@) == header_row(*self, n as nat),
    {
        let mut out: Vec<String> = Vec::new();
        let mut c: usize = 0;
        while c < n
            invariant
                self.wf(),
                c <= n,
                out@.len() == c,
                forall|k: int| 0 <= k < c ==> (#[trigger] out@[k])@ == header_text(*self, k),
            decreases n - c,
        {
            let v = match self.header(c) {
                Some(t) => t.to_owned(),
                None => String::new(),
            };
            out.push(v);
            c += 1;
        }
        assert(texts(out@) =~= header_row(*self, n as nat));
        out
    }

    /// Columns kept when trimming the first `count` rows of `rows`.
    fn retained_column_count(&self, rows: &Vec<Vec<String>>, count: usize) -> (n: usize)
        requires
            self.wf(),
            count <= rows@.len(),
        ensures
            n == kept_width(*self, grid(rows@).take(count as int)),
    {
        let header_count = match &self.headers {
            Some(_) => {
                let hv = self.header_texts(self.column_count());
                row_used_width(&hv)
            },
            None => 0,
        };
        let row_count = widest_row(rows, count);
        if header_count > row_count {
            header_count
        } else {
            row_count
        }
    }

    /// The document as CSV text in `dialect`, optionally trimming empty rows
    /// and columns at the end.
    fn to_csv_bytes_with_dialect(&self, dialect: CsvDialect, trim_empty_edges: bool) -> (r: Vec<
        u8,
    >)
        requires
            self.wf(),
        ensures
            r@ == vstd::utf8::encode_utf8(csv_text(*self, dialect, trim_empty_edges)),
    {
        let data_rows = self.table_texts();
        let ghost t = table(*self);
        let kept_rows = if trim_empty_edges {
            retained_row_count(&data_rows)
        } else {
            data_rows.len()
        };
        proof {
            lemma_used_rows_bound(t);
        }
        let kept_columns = if trim_empty_edges {
            self.retained_column_count(&data_rows, kept_rows)
        } else {
            self.column_count()
        };
        let mut records = copy_grid(&self.skipped_rows);
        let ghost base = grid(records@);
        match &self.headers {
            Some(_) => {
                if kept_columns > 0 || !trim_empty_edges {
                    records.push(self.header_texts(kept_columns));
                }
            },
            None => {},
        }
        let ghost with_head = grid(records@);
        let head_len = records.len();
        let mut i: usize = 0;
        while i < kept_rows
            invariant
                kept_rows <= data_rows@.len(),
                grid(data_rows@) == t,
                head_len <= records@.len(),
                records@.len() == head_len + i,
                i <= kept_rows,
                grid(records@).take(head_len as int) == with_head,
                with_head.len() == head_len,
                forall|k: int|
                    0 <= k < i ==> texts((#[trigger] records@[head_len + k])@) == clip(
                        t.take(kept_rows as int),
                        kept_columns as nat,
                    )[k],
            decreases kept_rows - i,
        {
            let ghost before = records@;
            records.push(trimmed_record(&data_rows[i], kept_columns));
            proof {
                assert(grid(records@).take(head_len as int) =~= grid(before).take(head_len as int));
                assert(t[i as int] == texts(data_rows@[i as int]@));
            }
            i += 1;
        }
        proof {
            let head = if self.spec_headers() is Some && (kept_columns > 0 || !trim_empty_edges) {
                seq![header_row(*self, kept_columns as nat)]
            } else {
                Seq::<Seq<Seq<char>>>::empty()
            };
            assert(with_head =~= base + head);
            assert(grid(records@) =~= self.skipped() + head + clip(t.take(kept_rows as int), kept_columns as nat)) by {
                assert forall|k: int| 0 <= k < records@.len() implies #[trigger] grid(records@)[k]
                    == (self.skipped() + head + clip(t.take(kept_rows as int), kept_columns as nat))[k] by {
                    if k < head_len {
                        assert(grid(records@).take(head_len as int)[k] == with_head[k]);
                    } else {
                        assert(records@[head_len + (k - head_len)] == records@[k]);
                    }
                }
            }
            assert(grid(records@) == csv_records(*self, trim_empty_edges));
        }
        let mut out = String::new();
        write_records(&mut out, &records, dialect);
        vstd::slice::slice_to_vec(out.as_str().as_bytes())
    }

    /// The document as CSV bytes in its own dialect, empty rows and columns at
    /// the end left out.
    pub fn to_csv_bytes(&self) -> (r: Vec<u8>)
        requires
            self.wf(),
        ensures
            r@ == vstd::utf8::encode_utf8(csv_text(*self, self.spec_dialect(), true)),
    {
        self.to_csv_bytes_with_dialect(self.dialect, true)
    }

    /// The document as CSV bytes with another delimiter, empty rows and
    /// columns at the end left out.
    pub fn to_csv_bytes_with_delimiter(&self, delimiter: u8) -> (r: Vec<u8>)
        requires
            self.wf(),
        ensures
            r@ == vstd::utf8::encode_utf8(
                csv_text(*self, CsvDialect { delimiter, ..self.spec_dialect() }, true),
            ),
    {
        let mut dialect = self.dialect;
        dialect.delimiter = delimiter;
        self.to_csv_bytes_with_dialect(dialect, true)
    }

    /// The document as CSV bytes with another delimiter, every shown row and
    /// column written.
    pub fn to_csv_bytes_with_delimiter_untrimmed(&self, delimiter: u8) -> (r: Vec<u8>)
        requires
            self.wf(),
        ensures
            r@ == vstd::utf8::encode_utf8(
                csv_text(*self, CsvDialect { delimiter, ..self.spec_dialect() }, false),
            ),
    {
        let mut dialect = self.dialect;
        dialect.delimiter = delimiter;
        self.to_csv_bytes_with_dialect(dialect, false)
    }
}


/// The rules on columns below `w`, in order.
pub open spec fn rules_within(rules: Seq<RuleView>, w: nat) -> Seq<RuleView>
    decreases rules.len(),
{
    if rules.len() == 0 {
        Seq::empty()
    } else {
        let p = rules_within(rules.drop_last(), w);
        if rules.last().column < w {
            p.push(rules.last())
        } else {
            p
        }
    }
}

/// The sort keys on columns below `w`, in order.
pub open spec fn keys_within(keys: Seq<SortKey>, w: nat) -> Seq<SortKey>
    decreases keys.len(),
{
    if keys.len() == 0 {
        Seq::empty()
    } else {
        let p = keys_within(keys.drop_last(), w);
        if keys.last().column < w {
            p.push(keys.last())
        } else {
            p
        }
    }
}

/// How a saved document is read back: with its header setting, its number of
/// rows kept aside, and its delimiter.
pub open spec fn saved_options(doc: CsvDocument) -> OpenOptions {
    OpenOptions {
        first_row_is_header: doc.spec_headers() is Some,
        skip_rows: doc.skipped().len() as usize,
        delimiter: Some(doc.spec_dialect().delimiter),
    }
}

/// `new` is `old` read back from the bytes saved to `path`: the bytes read
/// with the header setting, rows kept aside and delimiter of `old`, its
/// shown filters and sort keys carried over where their column still exists,
/// and the shown rows recomputed.
pub open spec fn rebased<F: Fn(&str) -> Option<u64>>(
    old: CsvDocument,
    new: CsvDocument,
    path: Seq<char>,
    bytes: Seq<u8>,
    numbers: &F,
) -> bool {
    let opts = saved_options(old);
    let w = opened_width(bytes, opts);
    &&& opened_table(new, bytes, opts)
    &&& new.spec_path() == Some(path)
    &&& new.filter_list() == rules_within(shown_rules(old, old.filter_list()), w)
    &&& new.sort_key_list() == keys_within(shown_keys(old, old.sort_key_list()), w)
    &&& refreshed(new, numbers)
}

impl CsvDocument {
    /// Makes the bytes just saved to `path` the document's new source.
    ///
    /// The bytes are read back with the document's header setting, rows kept
    /// aside and delimiter; the shown filters and sort keys carry over where
    /// their column still exists, and the shown rows are recomputed. Pending
    /// edits are gone: they are now part of the source. Reading back fails,
    /// and nothing changes, only when the bytes are detected as UTF-16.
    pub fn rebase_saved_bytes<F: Fn(&str) -> Option<u64> + Sync>(
        &mut self,
        path: String,
        bytes: Vec<u8>,
        numbers: &F,
    ) -> (r: Result<(), CsvError>)
        requires
            old(self).wf(),
            is_number_reader(numbers),
        ensures
            final(self).wf(),
            (spec_dialect(bytes@).encoding == Encoding::Utf16Le || spec_dialect(bytes@).encoding
                == Encoding::Utf16Be) <==> r is Err,
            r matches Err(e) ==> e is UnsupportedEncoding && *final(self) == *old(self),
            r is Ok ==> rebased(*old(self), *final(self), path@, bytes@, numbers),
    {
        let filters = self.filter_rules();
        let keys = self.sort_keys();
        let options = OpenOptions {
            first_row_is_header: self.headers.is_some(),
            skip_rows: self.skipped_rows.len(),
            delimiter: Some(self.dialect.delimiter),
        };
        proof {
            assert(self.skipped().len() == self.skipped_rows@.len());
            assert(options == saved_options(*self));
        }
        let ghost w = opened_width(bytes@, options);
        let mut saved = match Self::from_source(Some(path), bytes, options) {
            Ok(d) => d,
            Err(e) => {
                return Err(e);
            },
        };
        let ghost fr = rules_view(filters@);
        let mut real_filters: Vec<FilterRule> = Vec::new();
        let mut i: usize = 0;
        while i < filters.len()
            invariant
                i <= filters@.len(),
                fr == rules_view(filters@),
                saved.visible_columns() == range_seq(0, w as int),
                rules_view(real_filters@) == rules_within(fr.take(i as int), w),
            decreases filters@.len() - i,
        {
            proof {
                assert(fr.take(i + 1).drop_last() =~= fr.take(i as int));
                assert(fr.take(i + 1).last() == filters@[i as int]@);
            }
            let rule = &filters[i];
            match saved.real_column(rule.column) {
                Some(c) => {
                    let ghost before = real_filters@;
                    real_filters.push(FilterRule { column: c, operator: rule.operator, value: rule.value.clone() });
                    proof {
                        assert(rules_view(real_filters@) =~= rules_view(before).push(rule@));
                    }
                },
                None => {},
            }
            i += 1;
        }
        proof {
            assert(fr.take(i as int) =~= fr);
        }
        let mut real_keys: Vec<SortKey> = Vec::new();
        let mut j: usize = 0;
        while j < keys.len()
            invariant
                j <= keys@.len(),
                saved.visible_columns() == range_seq(0, w as int),
                real_keys@ == keys_within(keys@.take(j as int), w),
            decreases keys@.len() - j,
        {
            proof {
                assert(keys@.take(j + 1).drop_last() =~= keys@.take(j as int));
            }
            let key = keys[j];
            match saved.real_column(key.column) {
                Some(c) => {
                    real_keys.push(SortKey { column: c, direction: key.direction });
                },
                None => {},
            }
            j += 1;
        }
        proof {
            assert(keys@.take(j as int) =~= keys@);
        }
        saved.filters = real_filters;
        saved.sort_keys = real_keys;
        saved.refresh_view(numbers);
        *self = saved;
        Ok(())
    }

    /// Makes the bytes just written to `path` (those of `to_csv_bytes`) the
    /// document's source, as `rebase_saved_bytes` does, and marks the
    /// document saved.
    pub fn save_to<F: Fn(&str) -> Option<u64> + Sync>(
        &mut self,
        path: String,
        bytes: Vec<u8>,
        numbers: &F,
    ) -> (r: Result<(), CsvError>)
        requires
            old(self).wf(),
            is_number_reader(numbers),
        ensures
            final(self).wf(),
            (spec_dialect(bytes@).encoding == Encoding::Utf16Le || spec_dialect(bytes@).encoding
                == Encoding::Utf16Be) <==> r is Err,
            r matches Err(e) ==> e is UnsupportedEncoding && *final(self) == *old(self),
            r is Ok ==> rebased(*old(self), *final(self), path@, bytes@, numbers)
                && !final(self).spec_dirty(),
    {
        match self.rebase_saved_bytes(path, bytes, numbers) {
            Ok(()) => {},
            Err(e) => {
                return Err(e);
            },
        }
        self.dirty = false;
        Ok(())
    }
}


/// Empty values sort last in both directions: when the first sort key's
/// value is empty in one row and not in the other, the row with the value
/// comes first, whatever the key's direction.
pub proof fn lemma_empty_sorts_last<F: Fn(&str) -> Option<u64>>(
    doc: CsvDocument,
    f: &F,
    keys: Seq<SortKey>,
    l: usize,
    r: usize,
)
    requires
        keys.len() > 0,
        doc.source_value(l as int, keys[0].column as int).len() > 0,
        doc.source_value(r as int, keys[0].column as int).len() == 0,
    ensures
        row_order(doc, f, keys, l, r) == Comparison::Less,
        row_order(doc, f, keys, r, l) == Comparison::Greater,
{
}

/// In a sorted view, no row whose first-key value is empty is shown before a
/// row whose first-key value is not (when the row comparison is a total
/// order on the matching rows, as sorting needs).
pub proof fn lemma_view_empties_last<F: Fn(&str) -> Option<u64>>(doc: CsvDocument, f: &F)
    requires
        refreshed(doc, f),
        doc.sort_key_list().len() > 0,
        total_on(
            doc,
            f,
            doc.sort_key_list(),
            matching_rows(doc, f, doc.data_record().len() as int),
        ),
    ensures
        forall|i: int, j: int|
            0 <= i < j < doc.visible_rows().len() ==> !(doc.source_value(
                #[trigger] doc.visible_rows()[i] as int,
                doc.sort_key_list()[0].column as int,
            ).len() == 0 && doc.source_value(
                #[trigger] doc.visible_rows()[j] as int,
                doc.sort_key_list()[0].column as int,
            ).len() > 0),
{
    let keys = doc.sort_key_list();
    let vis = doc.visible_rows();
    reveal(sorted_rows);
    assert forall|i: int, j: int| 0 <= i < j < vis.len() implies !(doc.source_value(
        #[trigger] vis[i] as int,
        keys[0].column as int,
    ).len() == 0 && doc.source_value(#[trigger] vis[j] as int, keys[0].column as int).len() > 0) by {
        if doc.source_value(vis[i] as int, keys[0].column as int).len() == 0 && doc.source_value(
            vis[j] as int,
            keys[0].column as int,
        ).len() > 0 {
            lemma_empty_sorts_last(doc, f, keys, vis[j], vis[i]);
            assert(row_order(doc, f, keys, vis[i], vis[j]) != Comparison::Greater);
        }
    }
}

/// Without sort keys the view shows exactly the rows that are not deleted
/// and pass every filter, in data order.
pub proof fn lemma_unsorted_view<F: Fn(&str) -> Option<u64>>(doc: CsvDocument, f: &F)
    requires
        doc.wf(),
        refreshed(doc, f),
        doc.sort_key_list().len() == 0,
    ensures
        forall|r: usize|
            doc.visible_rows().contains(r) <==> (r < doc.data_record().len()
                && !doc.deleted_row_set().contains(r) && row_matches(doc, f, r as int)),
        forall|i: int, j: int|
            0 <= i < j < doc.visible_rows().len() ==> #[trigger] doc.visible_rows()[i]
                < #[trigger] doc.visible_rows()[j],
{
    let n = doc.data_record().len() as int;
    lemma_matching_rows_props(doc, f, n);
    assert forall|r: usize| doc.visible_rows().contains(r) <==> (r < doc.data_record().len()
        && !doc.deleted_row_set().contains(r) && row_matches(doc, f, r as int)) by {
        lemma_matching_rows_member(doc, f, n, r);
    }
}

/// A row is a matching row below `n` exactly when it is below `n`, not
/// deleted, and passes the filters.
proof fn lemma_matching_rows_member<F: Fn(&str) -> Option<u64>>(
    doc: CsvDocument,
    f: &F,
    n: int,
    r: usize,
)
    requires
        0 <= n <= usize::MAX,
    ensures
        matching_rows(doc, f, n).contains(r) <==> (r < n && !doc.deleted_row_set().contains(r)
            && row_matches(doc, f, r as int)),
    decreases n,
{
    if n > 0 {
        lemma_matching_rows_member(doc, f, n - 1, r);
        let p = matching_rows(doc, f, n - 1);
        let m = matching_rows(doc, f, n);
        if !doc.deleted_row_set().contains((n - 1) as usize) && row_matches(doc, f, n - 1) {
            assert(m == p.push((n - 1) as usize));
            if p.contains(r) {
                let k = choose|k: int| 0 <= k < p.len() && p[k] == r;
                assert(m[k] == r);
            }
            if m.contains(r) && r != n - 1 {
                let k = choose|k: int| 0 <= k < m.len() && m[k] == r;
                assert(k < p.len());
                assert(p[k] == r);
            }
            if r == n - 1 {
                assert(m[m.len() - 1] == r);
            }
        } else {
            assert(m == p);
        }
    }
}


/// A document shows each real column at most once.
pub proof fn lemma_shown_columns_distinct(doc: CsvDocument)
    requires
        doc.wf(),
    ensures
        doc.visible_columns().no_duplicates(),
{
    lemma_keep_live_unique(doc.column_order@, doc.deleted_columns@.to_set());
}

/// A shown real column is found again at its display position.
proof fn lemma_visible_column_of_shown(doc: CsvDocument, c: int)
    requires
        doc.wf(),
        0 <= c < doc.visible_columns().len(),
    ensures
        doc.spec_visible_column(doc.visible_columns()[c]) == Some(c as usize),
{
    lemma_shown_columns_distinct(doc);
    let vc = doc.visible_columns();
    assert(is_first_index(vc, vc[c], c));
    assert(vc.contains(vc[c]));
    let i = choose|i: int| is_first_index(vc, vc[c], i);
    assert(i == c);
}

/// Filter rules read back as they were set: the rules that
/// `set_filter_rules` stores, shown again by display column (as
/// `filter_rules` gives them), are the rules given, while the shown columns
/// stay as they were.
pub proof fn lemma_filter_rules_read_back(old: CsvDocument, new: CsvDocument, rules: Seq<RuleView>)
    requires
        old.wf(),
        new.wf(),
        new.visible_columns() == old.visible_columns(),
        rules_to_real(old, rules) is Some,
    ensures
        shown_rules(new, rules_to_real(old, rules)->0) == rules,
    decreases rules.len(),
{
    let stored = rules_to_real(old, rules)->0;
    if rules.len() > 0 {
        let front = rules.drop_last();
        assert(rules_to_real(old, front) is Some) by {
            assert forall|k: int| 0 <= k < front.len() implies (#[trigger] front[k]).column
                < old.visible_columns().len() by {
                assert(front[k] == rules[k]);
            }
        }
        assert(rules_to_real(old, front)->0 =~= stored.drop_last());
        lemma_filter_rules_read_back(old, new, front);
        let last = rules.last();
        assert(last == rules[rules.len() - 1]);
        lemma_visible_column_of_shown(new, last.column as int);
        assert(shown_rules(new, stored) =~= rules);
    } else {
        assert(stored =~= Seq::<RuleView>::empty());
        assert(rules =~= Seq::<RuleView>::empty());
    }
}

/// Sort keys read back as they were set: the keys that `sort_by` stores,
/// shown again by display column (as `sort_keys` gives them), are the keys
/// given, while the shown columns stay as they were.
pub proof fn lemma_sort_keys_read_back(old: CsvDocument, new: CsvDocument, keys: Seq<SortKey>)
    requires
        old.wf(),
        new.wf(),
        new.visible_columns() == old.visible_columns(),
        keys_to_real(old, keys) is Some,
    ensures
        shown_keys(new, keys_to_real(old, keys)->0) == keys,
    decreases keys.len(),
{
    let stored = keys_to_real(old, keys)->0;
    if keys.len() > 0 {
        let front = keys.drop_last();
        assert(keys_to_real(old, front) is Some) by {
            assert forall|k: int| 0 <= k < front.len() implies (#[trigger] front[k]).column
                < old.visible_columns().len() by {
                assert(front[k] == keys[k]);
            }
        }
        assert(keys_to_real(old, front)->0 =~= stored.drop_last());
        lemma_sort_keys_read_back(old, new, front);
        let last = keys.last();
        assert(last == keys[keys.len() - 1]);
        lemma_visible_column_of_shown(new, last.column as int);
        assert(shown_keys(new, stored) =~= keys);
    } else {
        assert(stored =~= Seq::<SortKey>::empty());
        assert(keys =~= Seq::<SortKey>::empty());
    }
}

/// Whether a snapshot can be put back depends only on how many data rows
/// the document has: it still fits after any change that keeps the data rows
/// (every change but reading a new source, as opening and saving do).
pub proof fn lemma_fits_same_rows(s: CsvDocumentSnapshot, a: CsvDocument, b: CsvDocument)
    requires
        s.fits(a),
        a.data_record().len() == b.data_record().len(),
    ensures
        s.fits(b),
{
}

/// A consistent document quotes with the double quote, and the number of
/// rows it keeps aside fits in a `usize`.
pub proof fn lemma_wf_facts(doc: CsvDocument)
    requires
        doc.wf(),
    ensures
        doc.spec_dialect().quote == 34u8,
        doc.skipped().len() <= usize::MAX,
        doc.spec_headers() is Some ==> doc.skipped().len() < usize::MAX,
        doc.record_list().len() <= usize::MAX,
        doc.data_record().len() <= usize::MAX,
        doc.column_order_list().len() <= usize::MAX,
{
    assert(doc.skipped().len() == doc.skipped_rows@.len());
}

/// With nothing deleted and no filter, every data row matches, in order.
pub proof fn lemma_matching_all<F: Fn(&str) -> Option<u64>>(doc: CsvDocument, f: &F, n: int)
    requires
        0 <= n <= usize::MAX,
        doc.deleted_row_set().is_empty(),
        doc.filter_list().len() == 0,
    ensures
        matching_rows(doc, f, n) == range_seq(0, n),
    decreases n,
{
    if n > 0 {
        lemma_matching_all(doc, f, n - 1);
        assert(row_matches(doc, f, n - 1));
        assert(range_seq(0, n - 1).push((n - 1) as usize) =~= range_seq(0, n));
    } else {
        assert(range_seq(0, n) =~= Seq::<usize>::empty());
    }
}

} // verus!
