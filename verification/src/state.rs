use crate::document::{
    column_inserted, row_inserted, keys_to_real, lemma_restore_undoes, opened, refreshed, row_slots, rules_to_real, same_base,
    same_overlay,
    shown_keys, shown_rules, CsvDocument, CsvDocumentSnapshot, OpenOptions,
};
use crate::dialect::{spec_dialect, Encoding};
use crate::formatting::{column_name, decimal, fit, fitted, push_decimal, spreadsheet_column_name};
use crate::text::{push_char, push_str};
use crate::writer::texts;
use crate::stats::{compute_stats, count_stats, filled_numbers, filled_texts, stat_view, SelectionMetric, SelectionStat};
use crate::formatting::decimal_text;
use crate::document::cell_text;
use crate::rules::{rules_view, ColumnFilter, FilterOperator, FilterRule, RuleView, SortDirection, SortKey};
use crate::selection::{max_usize, min_usize, step_position, stepped};
use crate::text::is_number_reader;
use crate::error::CsvError;
use crate::selection::{Cell, RectSelection, Selection};
use vstd::prelude::*;
use vstd::std_specs::iter::IteratorSpec;

verus! {

/// Most changes that can be undone.
pub const MAX_UNDO_HISTORY: usize = 10;

/// What undo and redo put back: the document's editing state, the selection
/// and the filter field.
pub struct HistoryEntry {
    document: CsvDocumentSnapshot,
    selection: Selection,
    filter_text: String,
}

impl HistoryEntry {
    /// The entry's document snapshot is consistent.
    pub closed spec fn wf(self) -> bool {
        self.document.wf()
    }

    /// The entry holds exactly the undoable state of `state`.
    pub closed spec fn holds_state(self, state: EditableState) -> bool {
        &&& state.document matches Some(d) && self.document.holds(d)
        &&& self.selection == state.selection
        &&& self.filter_text@ == state.filter_text@
    }

    /// The entry can be put back on `state`.
    pub closed spec fn fits_state(self, state: EditableState) -> bool {
        state.document matches Some(d) && self.document.fits(d)
    }

    /// Two entries hold the same state.
    pub closed spec fn same_entry(self, other: HistoryEntry) -> bool {
        &&& self.document.same_state(other.document)
        &&& self.selection == other.selection
        &&& self.filter_text@ == other.filter_text@
    }

    /// Whether two entries hold the same state.
    pub fn same_as(&self, other: &HistoryEntry) -> (r: bool)
        ensures
            r == self.same_entry(*other),
    {
        self.document.same_as(&other.document) && self.selection == other.selection
            && self.filter_text == other.filter_text
    }
}

/// The editor's state: the open document (if any), the selection, how files
/// are opened, the filter field, the last error and the undo history.
pub struct EditableState {
    pub document: Option<CsvDocument>,
    pub selection: Selection,
    pub first_row_is_header: bool,
    pub skip_rows: usize,
    pub filter_text: String,
    pub last_error: Option<String>,
    pub undo_stack: Vec<HistoryEntry>,
    pub redo_stack: Vec<HistoryEntry>,
}

impl Default for EditableState {
    fn default() -> (s: Self)
        ensures
            s.wf(),
            s.document is None,
            s.selection == Selection::Cell(
                RectSelection { anchor: Cell { row: 0, column: 0 }, focus: Cell { row: 0, column: 0 } },
            ),
            s.first_row_is_header,
            s.skip_rows == 0,
            s.filter_text@.len() == 0,
            s.last_error is None,
            s.undo_entries().len() == 0,
            s.redo_entries().len() == 0,
    {
        EditableState {
            document: None,
            selection: Selection::Cell(RectSelection::new(Cell { row: 0, column: 0 })),
            first_row_is_header: true,
            skip_rows: 0,
            filter_text: String::new(),
            last_error: None,
            undo_stack: Vec::new(),
            redo_stack: Vec::new(),
        }
    }
}

impl EditableState {
    /// The state is consistent: the document is, every history entry is, and
    /// the undo history holds at most `MAX_UNDO_HISTORY` entries.
    pub closed spec fn wf(self) -> bool {
        &&& self.document matches Some(d) ==> d.wf()
        &&& forall|i: int| 0 <= i < self.undo_stack@.len() ==> (#[trigger] self.undo_stack@[i]).wf()
        &&& forall|i: int| 0 <= i < self.redo_stack@.len() ==> (#[trigger] self.redo_stack@[i]).wf()
        &&& self.undo_stack@.len() <= MAX_UNDO_HISTORY
    }

    /// The changes that can be undone, oldest first.
    pub closed spec fn undo_entries(self) -> Seq<HistoryEntry> {
        self.undo_stack@
    }

    /// The changes that can be redone, oldest first.
    pub closed spec fn redo_entries(self) -> Seq<HistoryEntry> {
        self.redo_stack@
    }

    /// The current undoable state, when a document is open.
    pub fn history_snapshot(&self) -> (e: Option<HistoryEntry>)
        requires
            self.wf(),
        ensures
            self.document is None ==> e is None,
            self.document is Some ==> (e matches Some(x) && x.holds_state(*self) && x.wf()
                && x.fits_state(*self)),
    {
        match &self.document {
            Some(d) => Some(
                HistoryEntry {
                    document: d.snapshot(),
                    selection: self.selection,
                    filter_text: self.filter_text.clone(),
                },
            ),
            None => None,
        }
    }

    /// Puts back a history entry when it fits the open document; returns
    /// whether it did.
    fn restore_history_entry(&mut self, entry: HistoryEntry) -> (done: bool)
        requires
            old(self).wf(),
            entry.wf(),
        ensures
            final(self).wf(),
            done == entry.fits_state(*old(self)),
            final(self).undo_entries() == old(self).undo_entries(),
            final(self).redo_entries() == old(self).redo_entries(),
            done ==> entry.holds_state(*final(self)) && final(self).last_error is None
                && same_base(final(self).document->0, old(self).document->0)
                && final(self).document->0.spec_path() == old(self).document->0.spec_path(),
            !done ==> *final(self) == *old(self),
    {
        let fits = match &self.document {
            Some(d) => entry.document.fits_document(d),
            None => false,
        };
        if !fits {
            return false;
        }
        match &mut self.document {
            Some(d) => {
                d.restore_snapshot(entry.document);
            },
            None => {},
        }
        self.selection = entry.selection;
        self.filter_text = entry.filter_text;
        self.last_error = None;
        true
    }

    /// Adds an entry to the undo history, dropping the oldest one when the
    /// history is full.
    fn push_undo(&mut self, entry: HistoryEntry)
        requires
            old(self).wf(),
            entry.wf(),
        ensures
            final(self).wf(),
            final(self).document == old(self).document,
            final(self).selection == old(self).selection,
            final(self).filter_text == old(self).filter_text,
            final(self).last_error == old(self).last_error,
            final(self).redo_entries() == old(self).redo_entries(),
            final(self).undo_entries() == if old(self).undo_entries().len() == MAX_UNDO_HISTORY {
                old(self).undo_entries().drop_first().push(entry)
            } else {
                old(self).undo_entries().push(entry)
            },
    {
        if self.undo_stack.len() == MAX_UNDO_HISTORY {
            self.undo_stack.remove(0);
        }
        self.undo_stack.push(entry);
    }

    /// Undoes the last change: the current state goes to the redo history
    /// and the last undo entry is put back. Returns false, changing nothing,
    /// when there is nothing to undo.
    pub fn undo(&mut self) -> (r: bool)
        requires
            old(self).wf(),
        ensures
            final(self).wf(),
            r == (old(self).undo_entries().len() > 0),
            !r ==> *final(self) == *old(self),
            r ==> {
                let e = old(self).undo_entries().last();
                &&& final(self).undo_entries() == old(self).undo_entries().drop_last()
                &&& old(self).document is Some ==> final(self).redo_entries().len()
                    == old(self).redo_entries().len() + 1 && final(self).redo_entries().last().holds_state(
                    *old(self),
                )
                &&& old(self).document is None ==> final(self).redo_entries() == old(self).redo_entries()
                &&& e.fits_state(*old(self)) ==> e.holds_state(*final(self)) && same_base(
                    final(self).document->0,
                    old(self).document->0,
                )
            },
    {
        if self.undo_stack.len() == 0 {
            return false;
        }
        let entry = match self.undo_stack.pop() {
            Some(e) => e,
            None => {
                return false;
            },
        };
        proof {
            assert(entry == old(self).undo_stack@.last());
        }
        match self.history_snapshot() {
            Some(current) => {
                self.redo_stack.push(current);
            },
            None => {},
        }
        self.restore_history_entry(entry);
        true
    }

    /// Redoes the last undone change: the current state goes to the undo
    /// history and the last redo entry is put back. Returns false, changing
    /// nothing, when there is nothing to redo.
    pub fn redo(&mut self) -> (r: bool)
        requires
            old(self).wf(),
        ensures
            final(self).wf(),
            r == (old(self).redo_entries().len() > 0),
            !r ==> *final(self) == *old(self),
            r ==> {
                let e = old(self).redo_entries().last();
                &&& final(self).redo_entries() == old(self).redo_entries().drop_last()
                &&& old(self).document is Some ==> final(self).undo_entries().len() > 0
                    && final(self).undo_entries().last().holds_state(*old(self))
                &&& e.fits_state(*old(self)) ==> e.holds_state(*final(self)) && same_base(
                    final(self).document->0,
                    old(self).document->0,
                )
            },
    {
        if self.redo_stack.len() == 0 {
            return false;
        }
        let entry = match self.redo_stack.pop() {
            Some(e) => e,
            None => {
                return false;
            },
        };
        proof {
            assert(entry == old(self).redo_stack@.last());
        }
        match self.history_snapshot() {
            Some(current) => {
                self.push_undo(current);
            },
            None => {},
        }
        self.restore_history_entry(entry);
        true
    }

    /// Whether there is a change to undo.
    pub fn can_undo(&self) -> (r: bool)
        ensures
            r == (self.undo_entries().len() > 0),
    {
        self.undo_stack.len() > 0
    }

    /// Whether there is a change to redo.
    pub fn can_redo(&self) -> (r: bool)
        ensures
            r == (self.redo_entries().len() > 0),
    {
        self.redo_stack.len() > 0
    }

    /// The state to record before a change that can be undone.
    pub fn begin_undoable(&self) -> (e: Option<HistoryEntry>)
        requires
            self.wf(),
        ensures
            self.document is None ==> e is None,
            self.document is Some ==> (e matches Some(x) && x.holds_state(*self) && x.wf()
                && x.fits_state(*self)),
    {
        self.history_snapshot()
    }

    /// Records the outcome of a change begun with `begin_undoable`.
    ///
    /// A failed change is rolled back to the recorded state and its error
    /// returned. A change that succeeded and changed the state puts the
    /// recorded state on the undo history and clears the redo history.
    pub fn finish_undoable(
        &mut self,
        before: Option<HistoryEntry>,
        outcome: Result<(), CsvError>,
    ) -> (r: Result<(), CsvError>)
        requires
            old(self).wf(),
            before matches Some(b) ==> b.wf(),
        ensures
            final(self).wf(),
            r is Ok <==> outcome is Ok,
            before is None ==> *final(self) == *old(self),
            before matches Some(b) ==> (outcome is Err ==> (b.fits_state(*old(self))
                ==> b.holds_state(*final(self)) && final(self).last_error is None)
                && final(self).undo_entries() == old(self).undo_entries()
                && final(self).redo_entries() == old(self).redo_entries()),
            before matches Some(b) ==> (outcome is Ok ==> final(self).document == old(self).document
                && final(self).selection == old(self).selection && final(self).filter_text@ == old(
                self,
            ).filter_text@ && if old(self).document is Some && !b.holds_state(*old(self)) {
                &&& final(self).undo_entries() == if old(self).undo_entries().len()
                    == MAX_UNDO_HISTORY {
                    old(self).undo_entries().drop_first().push(b)
                } else {
                    old(self).undo_entries().push(b)
                }
                &&& final(self).redo_entries().len() == 0
            } else {
                &&& final(self).undo_entries() == old(self).undo_entries()
                &&& final(self).redo_entries() == old(self).redo_entries()
            }),
    {
        let b = match before {
            Some(b) => b,
            None => {
                return outcome;
            },
        };
        match outcome {
            Err(e) => {
                self.restore_history_entry(b);
                Err(e)
            },
            Ok(()) => {
                let changed = match self.history_snapshot() {
                    Some(after) => {
                        let c = !after.same_as(&b);
                        proof {
                            lemma_holds_same_entry(after, b, *self);
                        }
                        c
                    },
                    None => false,
                };
                if changed {
                    self.push_undo(b);
                    self.redo_stack = Vec::new();
                }
                Ok(())
            },
        }
    }

    /// Forgets the undo and redo history.
    pub fn clear_history(&mut self)
        requires
            old(self).wf(),
        ensures
            final(self).wf(),
            final(self).undo_entries().len() == 0,
            final(self).redo_entries().len() == 0,
            final(self).document == old(self).document,
            final(self).selection == old(self).selection,
            final(self).first_row_is_header == old(self).first_row_is_header,
            final(self).skip_rows == old(self).skip_rows,
            final(self).filter_text == old(self).filter_text,
            final(self).last_error == old(self).last_error,
    {
        self.undo_stack = Vec::new();
        self.redo_stack = Vec::new();
    }
}

/// The first cell alone, the selection of a freshly opened document.
pub open spec fn first_cell() -> Selection {
    Selection::Cell(
        RectSelection { anchor: Cell { row: 0, column: 0 }, focus: Cell { row: 0, column: 0 } },
    )
}

/// The bytes are a UTF-16 source, which documents refuse.
pub open spec fn utf16_source(bytes: Seq<u8>) -> bool {
    spec_dialect(bytes).encoding == Encoding::Utf16Le || spec_dialect(bytes).encoding
        == Encoding::Utf16Be
}

/// The options a sample is opened with: a header row, nothing kept aside,
/// the separator detected.
pub open spec fn default_options() -> OpenOptions {
    OpenOptions { first_row_is_header: true, skip_rows: 0, delimiter: None }
}

/// The path a document was read from, as text.
pub open spec fn path_view(path: Option<String>) -> Option<Seq<char>> {
    match path {
        Some(p) => Some(p@),
        None => None,
    }
}

impl EditableState {
    /// The options files are opened with: the state's header setting and
    /// rows kept aside, the separator detected.
    pub fn open_options(&self) -> (o: OpenOptions)
        ensures
            o == (OpenOptions {
                first_row_is_header: self.first_row_is_header,
                skip_rows: self.skip_rows,
                delimiter: None,
            }),
    {
        OpenOptions {
            first_row_is_header: self.first_row_is_header,
            skip_rows: self.skip_rows,
            delimiter: None,
        }
    }

    /// Opens `bytes`, read from the file at `path`, with the state's options.
    ///
    /// The document read becomes the open one, the selection goes back to the
    /// first cell, the last error is cleared and the undo history (which
    /// belongs to the document that was open) is forgotten. A UTF-16 source is
    /// refused and leaves the state as it was.
    pub fn open_path(&mut self, path: Option<String>, bytes: Vec<u8>) -> (r: Result<(), CsvError>)
        requires
            old(self).wf(),
            old(self).first_row_is_header ==> old(self).skip_rows < usize::MAX,
        ensures
            final(self).wf(),
            utf16_source(bytes@) <==> r is Err,
            r matches Err(e) ==> e is UnsupportedEncoding && *final(self) == *old(self),
            r is Ok ==> {
                &&& final(self).document matches Some(d) && opened(d, bytes@, old(self).open_options_spec())
                    && d.spec_path() == path_view(path)
                &&& final(self).selection == first_cell()
                &&& final(self).last_error is None
                &&& final(self).undo_entries().len() == 0
                &&& final(self).redo_entries().len() == 0
                &&& final(self).first_row_is_header == old(self).first_row_is_header
                &&& final(self).skip_rows == old(self).skip_rows
                &&& final(self).filter_text == old(self).filter_text
            },
    {
        let options = self.open_options();
        let document = match CsvDocument::from_source(path, bytes, options) {
            Ok(d) => d,
            Err(e) => {
                return Err(e);
            },
        };
        self.document = Some(document);
        self.selection = Selection::default();
        self.last_error = None;
        self.clear_history();
        Ok(())
    }

    /// Where saving writes: the target chosen, else the document's own file,
    /// else `Editable.csv` in the working folder. Nothing is saved without a
    /// document.
    pub fn save_path(&self, target: Option<String>) -> (r: Option<String>)
        ensures
            match self.document {
                None => r is None,
                Some(d) => r matches Some(p) && p@ == match target {
                    Some(t) => t@,
                    None => match d.spec_path() {
                        Some(q) => q,
                        None => "Editable.csv"@,
                    },
                },
            },
    {
        let doc = match &self.document {
            None => {
                return None;
            },
            Some(d) => d,
        };
        match target {
            Some(t) => Some(t),
            None => match doc.path() {
                Some(p) => Some(p.to_owned()),
                None => Some("Editable.csv".to_owned()),
            },
        }
    }

    /// Records the outcome of an action: the message of its error, or no
    /// error when it succeeded.
    pub fn handle_result(&mut self, result: Result<(), CsvError>)
        requires
            old(self).wf(),
        ensures
            final(self).wf(),
            final(self).document == old(self).document,
            final(self).selection == old(self).selection,
            final(self).filter_text == old(self).filter_text,
            final(self).undo_entries() == old(self).undo_entries(),
            final(self).redo_entries() == old(self).redo_entries(),
            result is Ok ==> final(self).last_error is None,
            result matches Err(e) ==> (final(self).last_error matches Some(s) && (
            e.known_message() matches Some(m) ==> s@ == m)),
    {
        match result {
            Ok(()) => {
                self.last_error = None;
            },
            Err(e) => {
                self.last_error = Some(e.message());
            },
        }
    }

    /// The options files are opened with, in specifications.
    pub open spec fn open_options_spec(self) -> OpenOptions {
        OpenOptions {
            first_row_is_header: self.first_row_is_header,
            skip_rows: self.skip_rows,
            delimiter: None,
        }
    }

    /// Opens the sample table `sample` with the default options, as an
    /// untitled document; the selection goes back to the first cell and the
    /// undo history is forgotten. A UTF-16 sample is refused and leaves the
    /// state as it was.
    pub fn open_sample(&mut self, sample: Vec<u8>) -> (r: Result<(), CsvError>)
        requires
            old(self).wf(),
        ensures
            final(self).wf(),
            utf16_source(sample@) <==> r is Err,
            r matches Err(e) ==> e is UnsupportedEncoding && *final(self) == *old(self),
            r is Ok ==> {
                &&& final(self).document matches Some(d) && opened(d, sample@, default_options())
                    && d.spec_path() is None
                &&& final(self).selection == first_cell()
                &&& final(self).last_error == old(self).last_error
                &&& final(self).undo_entries().len() == 0
                &&& final(self).redo_entries().len() == 0
                &&& final(self).first_row_is_header == old(self).first_row_is_header
                &&& final(self).skip_rows == old(self).skip_rows
                &&& final(self).filter_text == old(self).filter_text
            },
    {
        let document = match CsvDocument::from_bytes(sample, OpenOptions::default()) {
            Ok(d) => d,
            Err(e) => {
                return Err(e);
            },
        };
        self.document = Some(document);
        self.selection = Selection::default();
        self.clear_history();
        Ok(())
    }

    /// Reads the open document again with the state's header setting and rows
    /// kept aside, from `bytes`: the current contents of its file, or the
    /// sample table when it has no file. With no document open, it opens
    /// `bytes` as the sample, with the default options.
    pub fn reopen_with_options(&mut self, bytes: Vec<u8>) -> (r: Result<(), CsvError>)
        requires
            old(self).wf(),
            old(self).first_row_is_header ==> old(self).skip_rows < usize::MAX,
        ensures
            final(self).wf(),
            utf16_source(bytes@) <==> r is Err,
            r matches Err(e) ==> e is UnsupportedEncoding && *final(self) == *old(self),
            r is Ok ==> {
                &&& final(self).document matches Some(d) && d.spec_path() == match old(self).document {
                    Some(o) => o.spec_path(),
                    None => None,
                } && opened(
                    d,
                    bytes@,
                    if old(self).document is Some {
                        old(self).open_options_spec()
                    } else {
                        default_options()
                    },
                )
                &&& final(self).selection == first_cell()
                &&& final(self).last_error == if old(self).document is Some {
                    None
                } else {
                    old(self).last_error
                }
                &&& final(self).undo_entries().len() == 0
                &&& final(self).redo_entries().len() == 0
            },
    {
        let path = match &self.document {
            None => {
                return self.open_sample(bytes);
            },
            Some(doc) => match doc.path() {
                Some(p) => Some(p.to_owned()),
                None => None,
            },
        };
        self.open_path(path, bytes)
    }
}

/// A history entry that can be put back on a state still can after any
/// change that keeps the document's data rows, such as every undoable
/// change: undo, redo and rolling back a failed change then put it back.
pub proof fn lemma_entry_fits_same_rows(e: HistoryEntry, a: EditableState, b: EditableState)
    requires
        e.fits_state(a),
        b.document is Some,
        a.document->0.data_record().len() == b.document->0.data_record().len(),
    ensures
        e.fits_state(b),
{
    crate::document::lemma_fits_same_rows(e.document, a.document->0, b.document->0);
}

/// An entry that holds a state is the same entry as any other that holds it
/// exactly when that one holds it too.
proof fn lemma_holds_same_entry(a: HistoryEntry, b: HistoryEntry, st: EditableState)
    requires
        a.holds_state(st),
    ensures
        a.same_entry(b) <==> b.holds_state(st),
{
    let d = st.document->0;
    crate::document::lemma_snapshot_agree(a.document, b.document, d);
}

/// Undoing puts back what was recorded: when a history entry holds the state
/// before a change and also the state after it was put back, and the
/// document still reads the same source, the document shows the same cells,
/// rows and columns, and the selection and filter field are the same.
pub proof fn lemma_undo_restores(entry: HistoryEntry, before: EditableState, after: EditableState)
    requires
        entry.holds_state(before),
        entry.holds_state(after),
        same_base(after.document->0, before.document->0),
    ensures
        same_overlay(after.document->0, before.document->0),
        after.document->0.spec_dirty() == before.document->0.spec_dirty(),
        forall|row: int, column: int|
            #[trigger] after.document->0.spec_cell(row, column) == before.document->0.spec_cell(
                row,
                column,
            ),
        after.selection == before.selection,
        after.filter_text@ == before.filter_text@,
{
    lemma_restore_undoes(before.document->0, entry.document, after.document->0);
}


impl EditableState {
    /// Selects the one cell at `row`, `column`.
    pub fn select_cell(&mut self, row: usize, column: usize)
        ensures
            final(self).selection == Selection::Cell(
                RectSelection { anchor: Cell { row, column }, focus: Cell { row, column } },
            ),
            final(self).document == old(self).document,
            final(self).filter_text == old(self).filter_text,
            final(self).undo_stack == old(self).undo_stack,
            final(self).redo_stack == old(self).redo_stack,
            final(self).last_error == old(self).last_error,
            final(self).first_row_is_header == old(self).first_row_is_header,
            final(self).skip_rows == old(self).skip_rows,
    {
        self.selection = Selection::Cell(RectSelection::new(Cell { row, column }));
    }

    /// Selects the row `row`.
    pub fn select_row(&mut self, row: usize)
        ensures
            final(self).selection == (Selection::Row { anchor: row, focus: row }),
            final(self).document == old(self).document,
            final(self).filter_text == old(self).filter_text,
            final(self).undo_stack == old(self).undo_stack,
            final(self).redo_stack == old(self).redo_stack,
    {
        self.selection = Selection::Row { anchor: row, focus: row };
    }

    /// Extends a row selection to `row`; any other selection becomes that row.
    pub fn select_row_range_to(&mut self, row: usize)
        ensures
            match old(self).selection {
                Selection::Row { anchor, .. } => final(self).selection == (Selection::Row {
                    anchor,
                    focus: row,
                }),
                _ => final(self).selection == (Selection::Row { anchor: row, focus: row }),
            },
            final(self).document == old(self).document,
            final(self).filter_text == old(self).filter_text,
            final(self).undo_stack == old(self).undo_stack,
            final(self).redo_stack == old(self).redo_stack,
    {
        match self.selection {
            Selection::Row { anchor, .. } => {
                self.selection = Selection::Row { anchor, focus: row };
            },
            _ => {
                self.select_row(row);
            },
        }
    }

    /// Selects the column `column`.
    pub fn select_column(&mut self, column: usize)
        ensures
            final(self).selection == (Selection::Column { anchor: column, focus: column }),
            final(self).document == old(self).document,
            final(self).filter_text == old(self).filter_text,
            final(self).undo_stack == old(self).undo_stack,
            final(self).redo_stack == old(self).redo_stack,
    {
        self.selection = Selection::Column { anchor: column, focus: column };
    }

    /// Moves (or, when `extending`, extends) the selection by `rows` and
    /// `columns`, kept inside the table; nothing happens without a document.
    pub fn move_selection(&mut self, rows: isize, columns: isize, extending: bool)
        requires
            old(self).wf(),
        ensures
            final(self).wf(),
            final(self).document == old(self).document,
            final(self).undo_stack == old(self).undo_stack,
            final(self).redo_stack == old(self).redo_stack,
            final(self).filter_text == old(self).filter_text,
            old(self).document is None ==> final(self).selection == old(self).selection,
            old(self).document matches Some(d) ==> {
                let a = old(self).selection.spec_active_cell();
                let c = Cell {
                    row: stepped(a.row, rows, d.spec_row_count() as usize),
                    column: stepped(a.column, columns, d.spec_column_count() as usize),
                };
                final(self).selection == if extending {
                    match old(self).selection {
                        Selection::Cell(rect) => Selection::Cell(
                            RectSelection { anchor: rect.anchor, focus: c },
                        ),
                        _ => Selection::Cell(RectSelection { anchor: c, focus: c }),
                    }
                } else {
                    Selection::Cell(RectSelection { anchor: c, focus: c })
                }
            },
    {
        let (rows_limit, columns_limit) = match &self.document {
            Some(d) => (d.row_count(), d.column_count()),
            None => {
                return;
            },
        };
        if extending {
            self.selection.extend_by(rows, columns, rows_limit, columns_limit);
        } else {
            self.selection.move_by(rows, columns, rows_limit, columns_limit);
        }
    }

    /// Writes `value` into the active cell.
    pub fn set_cell(&mut self, value: &str) -> (r: Result<(), CsvError>)
        requires
            old(self).wf(),
        ensures
            old(self).document matches Some(d) ==> final(self).document is Some
                && final(self).document->0.data_record() == d.data_record(),
            final(self).wf(),
            final(self).selection == old(self).selection,
            final(self).undo_stack == old(self).undo_stack,
            final(self).redo_stack == old(self).redo_stack,
            old(self).document is None ==> r is Ok && final(self).document is None,
            old(self).document matches Some(d) ==> {
                let a = old(self).selection.spec_active_cell();
                let f = final(self).document->0;
                &&& final(self).document is Some
                &&& d.spec_real_column(a.column as int) is None ==> r == Err::<(), CsvError>(
                    CsvError::InvalidColumn { column: a.column },
                ) && f == d
                &&& d.spec_real_column(a.column as int) is Some && d.spec_storage_row(a.row as int)
                    is None ==> r == Err::<(), CsvError>(CsvError::InvalidRow { row: a.row }) && f == d
                &&& r is Ok ==> f.spec_cell(a.row as int, a.column as int) == Some(value@)
                    && forall|row: int, column: int|
                    (row != a.row || column != a.column) ==> #[trigger] f.spec_cell(row, column)
                        == d.spec_cell(row, column)
                &&& (d.spec_real_column(a.column as int) is Some && d.spec_storage_row(a.row as int)
                    is Some) ==> r is Ok
            },
    {
        let active = self.selection.active_cell();
        match &mut self.document {
            Some(d) => d.set_cell(active.row, active.column, value),
            None => Ok(()),
        }
    }

    /// Inserts an empty row before the active row.
    pub fn insert_row(&mut self) -> (r: Result<(), CsvError>)
        requires
            old(self).wf(),
            old(self).document matches Some(d) ==> d.data_record().len() + d.inserted().len()
                < usize::MAX,
        ensures
            old(self).document matches Some(d) ==> final(self).document is Some
                && final(self).document->0.data_record() == d.data_record(),
            final(self).wf(),
            final(self).selection == old(self).selection,
            final(self).undo_stack == old(self).undo_stack,
            final(self).redo_stack == old(self).redo_stack,
            old(self).document is None ==> r is Ok && final(self).document is None,
            old(self).document matches Some(d) ==> {
                let at = old(self).selection.spec_active_cell().row;
                let f = final(self).document->0;
                &&& final(self).document is Some
                &&& at > d.spec_row_count() ==> r == Err::<(), CsvError>(
                    CsvError::InvalidRow { row: at },
                ) && f == d
                &&& at <= d.spec_row_count() ==> r is Ok && row_inserted(d, f, at as int)
            },
    {
        let row = self.selection.active_cell().row;
        match &mut self.document {
            Some(d) => d.insert_row(row),
            None => Ok(()),
        }
    }

    /// Inserts an empty column before the active column.
    pub fn insert_column(&mut self) -> (r: Result<(), CsvError>)
        requires
            old(self).wf(),
            old(self).document matches Some(d) ==> d.column_order_list().len()
                + d.inserted_column_count() + 1 < usize::MAX,
        ensures
            old(self).document matches Some(d) ==> final(self).document is Some
                && final(self).document->0.data_record() == d.data_record(),
            final(self).wf(),
            final(self).selection == old(self).selection,
            final(self).undo_stack == old(self).undo_stack,
            final(self).redo_stack == old(self).redo_stack,
            old(self).document is None ==> r is Ok && final(self).document is None,
            old(self).document matches Some(d) ==> {
                let at = old(self).selection.spec_active_cell().column;
                let f = final(self).document->0;
                &&& final(self).document is Some
                &&& at > d.spec_column_count() ==> r == Err::<(), CsvError>(
                    CsvError::InvalidColumn { column: at },
                ) && f == d
                &&& at <= d.spec_column_count() ==> r is Ok && column_inserted(d, f, at as int)
            },
    {
        let column = self.selection.active_cell().column;
        match &mut self.document {
            Some(d) => d.insert_column(column),
            None => Ok(()),
        }
    }

    /// Sorts by the active column in `direction`.
    pub fn sort_active_column<F: Fn(&str) -> Option<u64> + Sync>(
        &mut self,
        direction: SortDirection,
        numbers: &F,
    ) -> (r: Result<(), CsvError>)
        requires
            old(self).wf(),
            is_number_reader(numbers),
        ensures
            old(self).document matches Some(d) ==> final(self).document is Some
                && final(self).document->0.data_record() == d.data_record(),
            final(self).wf(),
            final(self).selection == old(self).selection,
            final(self).undo_stack == old(self).undo_stack,
            final(self).redo_stack == old(self).redo_stack,
            old(self).document is None ==> r is Ok && final(self).document is None,
            old(self).document matches Some(d) ==> {
                let c = old(self).selection.spec_active_cell().column;
                let f = final(self).document->0;
                &&& final(self).document is Some
                &&& c >= d.visible_columns().len() ==> r == Err::<(), CsvError>(
                    CsvError::InvalidColumn { column: c },
                ) && f == d
                &&& c < d.visible_columns().len() ==> r is Ok && f.sort_key_list() == seq![
                    SortKey { column: d.visible_columns()[c as int], direction },
                ] && refreshed(f, numbers)
            },
    {
        let column = self.selection.active_cell().column;
        match &mut self.document {
            Some(d) => {
                let mut keys: Vec<SortKey> = Vec::new();
                keys.push(SortKey { column, direction });
                let r = d.sort_by(keys, numbers);
                proof {
                    let old_d = old(self).document->0;
                    if column < old_d.visible_columns().len() {
                        assert(keys_to_real(old_d, seq![SortKey { column, direction }])->0 =~= seq![
                            SortKey { column: old_d.visible_columns()[column as int], direction },
                        ]);
                    } else {
                        assert(!(seq![SortKey { column, direction }][0].column
                            < old_d.visible_columns().len()));
                    }
                }
                r
            },
            None => Ok(()),
        }
    }

    /// The sort keys of the open document, by display column.
    pub fn sort_keys(&self) -> (r: Vec<SortKey>)
        requires
            self.wf(),
        ensures
            match self.document {
                Some(d) => r@ == shown_keys(d, d.sort_key_list()),
                None => r@.len() == 0,
            },
    {
        match &self.document {
            Some(d) => d.sort_keys(),
            None => Vec::new(),
        }
    }

    /// The filter rules of the open document, by display column.
    pub fn filter_rules(&self) -> (r: Vec<FilterRule>)
        requires
            self.wf(),
        ensures
            match self.document {
                Some(d) => rules_view(r@) == shown_rules(d, d.filter_list()),
                None => r@.len() == 0,
            },
    {
        match &self.document {
            Some(d) => d.filter_rules(),
            None => Vec::new(),
        }
    }

    /// Replaces the filter rules, then the sort keys, and clears the filter
    /// field; the first failure stops and is returned.
    pub fn apply_sort_filter_rules<F: Fn(&str) -> Option<u64> + Sync>(
        &mut self,
        sort_keys: Vec<SortKey>,
        filter_rules: Vec<FilterRule>,
        numbers: &F,
    ) -> (r: Result<(), CsvError>)
        requires
            old(self).wf(),
            is_number_reader(numbers),
        ensures
            old(self).document matches Some(d) ==> final(self).document is Some
                && final(self).document->0.data_record() == d.data_record(),
            final(self).wf(),
            final(self).selection == old(self).selection,
            final(self).undo_stack == old(self).undo_stack,
            final(self).redo_stack == old(self).redo_stack,
            r is Ok ==> final(self).filter_text@.len() == 0,
            r is Err ==> final(self).filter_text == old(self).filter_text,
            old(self).document is None ==> r is Ok && final(self).document is None,
            old(self).document matches Some(d) ==> {
                let f = final(self).document->0;
                &&& final(self).document is Some
                &&& rules_to_real(d, rules_view(filter_rules@)) is None ==> r is Err && f == d
                &&& rules_to_real(d, rules_view(filter_rules@)) is Some ==> (f.filter_list()
                    == rules_to_real(d, rules_view(filter_rules@))->0 && (r is Ok <==> keys_to_real(
                    d,
                    sort_keys@,
                ) is Some))
                &&& r is Ok ==> f.sort_key_list() == keys_to_real(d, sort_keys@)->0 && refreshed(
                    f,
                    numbers,
                )
            },
    {
        match &mut self.document {
            Some(d) => {
                match d.set_filter_rules(filter_rules, numbers) {
                    Ok(()) => {},
                    Err(e) => {
                        return Err(e);
                    },
                }
                match d.sort_by(sort_keys, numbers) {
                    Ok(()) => {},
                    Err(e) => {
                        return Err(e);
                    },
                }
            },
            None => {},
        }
        self.filter_text = String::new();
        Ok(())
    }

    /// Filters the active column to cells containing `needle` (an empty
    /// needle clears the column's filter) and keeps the needle in the filter
    /// field.
    pub fn filter_active_column_contains<F: Fn(&str) -> Option<u64> + Sync>(
        &mut self,
        needle: String,
        numbers: &F,
    ) -> (r: Result<(), CsvError>)
        requires
            old(self).wf(),
            is_number_reader(numbers),
        ensures
            old(self).document matches Some(d) ==> final(self).document is Some
                && final(self).document->0.data_record() == d.data_record(),
            final(self).wf(),
            final(self).filter_text@ == needle@,
            final(self).selection == old(self).selection,
            final(self).undo_stack == old(self).undo_stack,
            final(self).redo_stack == old(self).redo_stack,
            old(self).document is None ==> r is Ok && final(self).document is None,
            old(self).document matches Some(d) ==> {
                let c = old(self).selection.spec_active_cell().column;
                let f = final(self).document->0;
                &&& final(self).document is Some
                &&& c >= d.visible_columns().len() ==> r == Err::<(), CsvError>(
                    CsvError::InvalidColumn { column: c },
                ) && f == d
                &&& c < d.visible_columns().len() ==> {
                    let rc = d.visible_columns()[c as int];
                    let kept = crate::document::rules_without(d.filter_list(), rc);
                    &&& r is Ok
                    &&& f.filter_list() == if needle@.len() == 0 {
                        kept
                    } else {
                        kept.push(RuleView { column: rc, operator: FilterOperator::Contains, value: needle@ })
                    }
                    &&& refreshed(f, numbers)
                }
            },
    {
        let column = self.selection.active_cell().column;
        self.filter_text = needle.clone();
        match &mut self.document {
            Some(d) => {
                let empty = needle.as_str().is_empty();
                let filter = if empty {
                    None
                } else {
                    Some(ColumnFilter::Contains(needle))
                };
                d.set_filter(column, filter, numbers)
            },
            None => Ok(()),
        }
    }

    /// Moves the active source row by `delta` rows (kept inside the table)
    /// and selects it where it lands.
    pub fn move_active_row(&mut self, delta: isize) -> (r: Result<(), CsvError>)
        requires
            old(self).wf(),
        ensures
            old(self).document matches Some(d) ==> final(self).document is Some
                && final(self).document->0.data_record() == d.data_record(),
            final(self).wf(),
            final(self).undo_stack == old(self).undo_stack,
            final(self).redo_stack == old(self).redo_stack,
            final(self).filter_text == old(self).filter_text,
            old(self).document is None ==> r is Ok && final(self).document is None
                && final(self).selection == old(self).selection,
            old(self).document matches Some(d) ==> {
                let a = old(self).selection.spec_active_cell();
                let to = stepped(a.row, delta, d.spec_row_count() as usize);
                let f = final(self).document->0;
                &&& final(self).document is Some
                &&& to == a.row ==> r is Ok && f == d && final(self).selection == old(self).selection
                &&& to != a.row && (a.row >= d.visible_rows().len() || to >= d.visible_rows().len())
                    ==> r == Err::<(), CsvError>(CsvError::InvalidReorder { from: a.row, to }) && f
                    == d && final(self).selection == old(self).selection
                &&& to != a.row && a.row < d.visible_rows().len() && to < d.visible_rows().len()
                    ==> r is Ok && f.visible_rows() == d.visible_rows().remove(a.row as int).insert(
                    to as int,
                    d.visible_rows()[a.row as int],
                ) && final(self).selection == Selection::Cell(
                    RectSelection {
                        anchor: Cell { row: to, column: a.column },
                        focus: Cell { row: to, column: a.column },
                    },
                )
            },
    {
        let active = self.selection.active_cell();
        let to = match &self.document {
            Some(d) => step_position(active.row, delta, d.row_count()),
            None => {
                return Ok(());
            },
        };
        if to == active.row {
            return Ok(());
        }
        let r = match &mut self.document {
            Some(d) => d.reorder_row(active.row, to),
            None => Ok(()),
        };
        match r {
            Ok(()) => {
                self.select_cell(to, active.column);
                Ok(())
            },
            Err(e) => Err(e),
        }
    }

    /// Moves the active column by `delta` positions (kept inside the table)
    /// and selects it where it lands.
    pub fn move_active_column(&mut self, delta: isize) -> (r: Result<(), CsvError>)
        requires
            old(self).wf(),
        ensures
            old(self).document matches Some(d) ==> final(self).document is Some
                && final(self).document->0.data_record() == d.data_record(),
            final(self).wf(),
            final(self).undo_stack == old(self).undo_stack,
            final(self).redo_stack == old(self).redo_stack,
            final(self).filter_text == old(self).filter_text,
            old(self).document is None ==> r is Ok && final(self).document is None
                && final(self).selection == old(self).selection,
            old(self).document matches Some(d) ==> {
                let a = old(self).selection.spec_active_cell();
                let to = stepped(a.column, delta, d.spec_column_count() as usize);
                let f = final(self).document->0;
                let order = d.column_order_list();
                &&& final(self).document is Some
                &&& to == a.column ==> r is Ok && f == d && final(self).selection == old(
                    self,
                ).selection
                &&& to != a.column && (a.column >= order.len() || to >= order.len()) ==> r == Err::<
                    (),
                    CsvError,
                >(CsvError::InvalidReorder { from: a.column, to }) && f == d
                    && final(self).selection == old(self).selection
                &&& to != a.column && a.column < order.len() && to < order.len() ==> r is Ok
                    && f.column_order_list() == order.remove(a.column as int).insert(
                    to as int,
                    order[a.column as int],
                ) && final(self).selection == Selection::Cell(
                    RectSelection {
                        anchor: Cell { row: a.row, column: to },
                        focus: Cell { row: a.row, column: to },
                    },
                )
            },
    {
        let active = self.selection.active_cell();
        let to = match &self.document {
            Some(d) => step_position(active.column, delta, d.column_count()),
            None => {
                return Ok(());
            },
        };
        if to == active.column {
            return Ok(());
        }
        let r = match &mut self.document {
            Some(d) => d.reorder_column(active.column, to),
            None => Ok(()),
        };
        match r {
            Ok(()) => {
                self.select_cell(active.row, to);
                Ok(())
            },
            Err(e) => Err(e),
        }
    }

    /// The title of a column: its header when it has a non-empty one,
    /// otherwise its spreadsheet name.
    pub fn column_title(&self, column: usize) -> (s: String)
        requires
            self.wf(),
        ensures
            s@ == match self.document {
                Some(d) => match d.spec_header(column as int) {
                    Some(h) => if h.len() > 0 {
                        h
                    } else {
                        column_name(column as nat)
                    },
                    None => column_name(column as nat),
                },
                None => column_name(column as nat),
            },
    {
        match &self.document {
            Some(d) => match d.header(column) {
                Some(h) => if !h.is_empty() {
                    h.to_owned()
                } else {
                    spreadsheet_column_name(column)
                },
                None => spreadsheet_column_name(column),
            },
            None => spreadsheet_column_name(column),
        }
    }

    /// The title of a column, in specifications.
    pub open spec fn title_of(self, column: usize) -> Seq<char> {
        match self.document {
            Some(d) => match d.spec_header(column as int) {
                Some(h) => if h.len() > 0 {
                    h
                } else {
                    column_name(column as nat)
                },
                None => column_name(column as nat),
            },
            None => column_name(column as nat),
        }
    }

    /// The titles of all shown columns, in order (none without a document).
    pub fn column_titles(&self) -> (r: Vec<String>)
        requires
            self.wf(),
        ensures
            r@.len() == match self.document {
                Some(d) => d.spec_column_count(),
                None => 0,
            },
            forall|i: int| 0 <= i < r@.len() ==> (#[trigger] r@[i])@ == self.title_of(i as usize),
    {
        let count = match &self.document {
            Some(d) => d.column_count(),
            None => 0,
        };
        let mut titles: Vec<String> = Vec::new();
        let mut c: usize = 0;
        while c < count
            invariant
                self.wf(),
                c <= count,
                count == match self.document {
                    Some(d) => d.spec_column_count(),
                    None => 0,
                },
                titles@.len() == c,
                forall|i: int| 0 <= i < c ==> (#[trigger] titles@[i])@ == self.title_of(i as usize),
            decreases count - c,
        {
            titles.push(self.column_title(c));
            c += 1;
        }
        titles
    }
}


/// Texts joined with a separator between each two.
pub open spec fn joined(parts: Seq<Seq<char>>, sep: Seq<char>) -> Seq<char>
    decreases parts.len(),
{
    if parts.len() == 0 {
        Seq::empty()
    } else if parts.len() == 1 {
        parts[0]
    } else {
        joined(parts.drop_last(), sep) + sep + parts.last()
    }
}

/// A text with each line break replaced by a space.
pub open spec fn one_line(v: Seq<char>) -> Seq<char> {
    Seq::new(v.len(), |i: int| if v[i] == '\n' { ' ' } else { v[i] })
}

/// `n` copies of a character.
pub open spec fn repeated(c: char, n: nat) -> Seq<char> {
    Seq::new(n, |i: int| c)
}

/// Width of a preview column.
pub const PREVIEW_WIDTH: usize = 18;

/// A preview line: the texts fitted to the preview width, joined by bars.
pub open spec fn preview_line(values: Seq<Seq<char>>) -> Seq<char> {
    joined(Seq::new(values.len(), |i: int| fitted(values[i], PREVIEW_WIDTH as nat)), " | "@)
}

/// The smaller of two counts.
pub open spec fn at_most(a: nat, b: nat) -> nat {
    if a <= b {
        a
    } else {
        b
    }
}

/// The shown values of a row for the preview: the first `n` columns, on one line each.
pub open spec fn preview_cells(d: CsvDocument, row: int, n: nat) -> Seq<Seq<char>> {
    Seq::new(n, |c: int| one_line(cell_text(d, row, c)))
}

/// The text of the preview of a document: the header line and a rule under
/// it (when there is a header row), one line per shown row, and the size.
pub open spec fn preview_text(d: CsvDocument, max_rows: nat, max_columns: nat) -> Seq<char> {
    let head = match d.spec_headers() {
        Some(h) => {
            let k = at_most(max_columns, h.len());
            preview_line(h.take(k as int)) + "\n"@ + repeated('-', k * 21) + "\n"@
        },
        None => Seq::empty(),
    };
    let nrows = at_most(d.spec_row_count(), max_rows);
    let ncols = at_most(d.spec_column_count(), max_columns);
    let body = Seq::new(nrows, |r: int| preview_line(preview_cells(d, r, ncols)) + "\n"@);
    head + body.flatten() + "\n"@ + decimal(d.spec_row_count()) + " rows x "@ + decimal(
        d.spec_column_count(),
    ) + " columns"@ + if d.spec_dirty() {
        " - edited"@
    } else {
        Seq::empty()
    }
}

/// The status line of a document: its size and, when edited, the pending changes.
pub open spec fn status_line(d: CsvDocument) -> Seq<char> {
    decimal(d.spec_row_count()) + " rows x "@ + decimal(d.spec_column_count()) + " columns"@
        + if d.spec_dirty() {
        " - edited: "@ + decimal(d.edit_list().len()) + " cells, +"@ + decimal(d.inserted().len())
            + " rows, -"@ + decimal(d.deleted_row_set().len()) + " rows, +"@ + decimal(
            d.inserted_column_count(),
        ) + " columns, -"@ + decimal(d.deleted_column_set().len()) + " columns"@
    } else {
        Seq::empty()
    }
}

/// Appends texts fitted to the preview width and joined by bars.
fn push_preview_line(out: &mut String, values: &Vec<String>)
    ensures
        final(out)@ == old(out)@ + preview_line(texts(values@)),
{
    let ghost start = out@;
    let ghost all = Seq::new(values@.len(), |i: int| fitted(values@[i]@, PREVIEW_WIDTH as nat));
    let mut i: usize = 0;
    while i < values.len()
        invariant
            i <= values@.len(),
            all == Seq::new(values@.len(), |i: int| fitted(values@[i]@, PREVIEW_WIDTH as nat)),
            out@ == start + joined(all.take(i as int), " | "@),
        decreases values@.len() - i,
    {
        let ghost before = out@;
        if i > 0 {
            push_str(out, " | ");
        }
        let f = fit(values[i].as_str(), PREVIEW_WIDTH);
        push_str(out, f.as_str());
        proof {
            assert(all.take(i + 1).drop_last() =~= all.take(i as int));
            assert(all.take(i + 1).last() == all[i as int]);
            if i == 0 {
                assert(all.take(1) =~= seq![all[0]]);
                assert(out@ =~= start + joined(all.take(1), " | "@));
            } else {
                assert(out@ =~= start + joined(all.take(i + 1), " | "@));
            }
        }
        i += 1;
    }
    proof {
        assert(all.take(i as int) =~= all);
        assert(all =~= Seq::new(texts(values@).len(), |i: int| fitted(texts(values@)[i], PREVIEW_WIDTH as nat)));
    }
}

/// The text with each line break replaced by a space.
fn one_line_text(value: &str) -> (s: String)
    ensures
        s@ == one_line(value@),
{
    broadcast use vstd::string::group_string_axioms;

    let mut it = value.chars();
    let mut out = String::new();
    let ghost mut done: Seq<char> = Seq::empty();
    loop
        invariant
            value@ == done + it.remaining(),
            it.obeys_prophetic_iter_laws(),
            it.decrease() is Some,
            out@ == one_line(done),
        ensures
            out@ == one_line(value@),
        decreases it.decrease()->0,
    {
        match it.next() {
            Some(ch) => {
                if ch == '\n' {
                    push_char(&mut out, ' ');
                } else {
                    push_char(&mut out, ch);
                }
                proof {
                    let next_done = done.push(ch);
                    assert(value@ =~= next_done + it.remaining());
                    assert(out@ =~= one_line(next_done));
                    done = next_done;
                }
            },
            None => {
                assert(done =~= value@);
                break;
            },
        }
    }
    out
}

impl EditableState {
    /// The status line: the size of the open document and, when edited, its
    /// pending changes.
    pub fn status_text(&self) -> (s: String)
        requires
            self.wf(),
        ensures
            s@ == match self.document {
                Some(d) => status_line(d),
                None => "Open a CSV file to start editing."@,
            },
    {
        let d = match &self.document {
            Some(d) => d,
            None => {
                return "Open a CSV file to start editing.".to_owned();
            },
        };
        let stats = d.edit_stats();
        let mut s = String::new();
        push_decimal(&mut s, d.row_count());
        push_str(&mut s, " rows x ");
        push_decimal(&mut s, d.column_count());
        push_str(&mut s, " columns");
        if d.is_dirty() {
            push_str(&mut s, " - edited: ");
            push_decimal(&mut s, stats.edited_cells);
            push_str(&mut s, " cells, +");
            push_decimal(&mut s, stats.inserted_rows);
            push_str(&mut s, " rows, -");
            push_decimal(&mut s, stats.deleted_rows);
            push_str(&mut s, " rows, +");
            push_decimal(&mut s, stats.inserted_columns);
            push_str(&mut s, " columns, -");
            push_decimal(&mut s, stats.deleted_columns);
            push_str(&mut s, " columns");
        }
        assert(s@ =~= status_line(*d));
        s
    }

    /// A plain-text preview of the open document: at most `max_rows` rows
    /// and `max_columns` columns, each value fitted to the preview width.
    pub fn preview_grid_text(&self, max_rows: usize, max_columns: usize) -> (s: String)
        requires
            self.wf(),
        ensures
            s@ == match self.document {
                Some(d) => preview_text(d, max_rows as nat, max_columns as nat),
                None => "Open a CSV file to start editing."@,
            },
    {
        let d = match &self.document {
            Some(d) => d,
            None => {
                return "Open a CSV file to start editing.".to_owned();
            },
        };
        let mut out = String::new();
        let ghost head: Seq<char> = match d.spec_headers() {
            Some(h) => {
                let k = at_most(max_columns as nat, h.len());
                preview_line(h.take(k as int)) + "\n"@ + repeated('-', k * 21) + "\n"@
            },
            None => Seq::empty(),
        };
        match d.headers() {
            Some(h) => {
                let k = if max_columns <= h.len() {
                    max_columns
                } else {
                    h.len()
                };
                let mut shown: Vec<String> = Vec::new();
                let mut i: usize = 0;
                while i < k
                    invariant
                        k <= h@.len(),
                        i <= k,
                        shown@.len() == i,
                        forall|j: int| 0 <= j < i ==> (#[trigger] shown@[j])@ == h@[j]@,
                    decreases k - i,
                {
                    shown.push(h[i].clone());
                    i += 1;
                }
                push_preview_line(&mut out, &shown);
                push_str(&mut out, "\n");
                let mut j: usize = 0;
                let ghost before_rule = out@;
                while j < k
                    invariant
                        j <= k,
                        out@ == before_rule + repeated('-', (j * 21) as nat),
                    decreases k - j,
                {
                    let mut m: usize = 0;
                    while m < 21
                        invariant
                            m <= 21,
                            out@ == before_rule + repeated('-', (j * 21 + m) as nat),
                        decreases 21 - m,
                    {
                        push_char(&mut out, '-');
                        m += 1;
                        assert(out@ =~= before_rule + repeated('-', (j * 21 + m) as nat));
                    }
                    j += 1;
                }
                push_str(&mut out, "\n");
                proof {
                    assert(texts(shown@) =~= texts(h@).take(k as int));
                    assert(out@ =~= head);
                }
            },
            None => {
                assert(out@ =~= head);
            },
        }
        let ghost after_head = out@;
        let rows = d.row_count();
        let columns = d.column_count();
        let nrows = if rows <= max_rows {
            rows
        } else {
            max_rows
        };
        let ncols = if columns <= max_columns {
            columns
        } else {
            max_columns
        };
        let ghost body = Seq::new(
            nrows as nat,
            |r: int| preview_line(preview_cells(*d, r, ncols as nat)) + "\n"@,
        );
        let mut r: usize = 0;
        while r < nrows
            invariant
                d.wf(),
                r <= nrows,
                body == Seq::new(
                    nrows as nat,
                    |r: int| preview_line(preview_cells(*d, r, ncols as nat)) + "\n"@,
                ),
                out@ == after_head + body.take(r as int).flatten(),
            decreases nrows - r,
        {
            let mut cells: Vec<String> = Vec::new();
            let mut c: usize = 0;
            while c < ncols
                invariant
                    d.wf(),
                    c <= ncols,
                    cells@.len() == c,
                    forall|k: int|
                        0 <= k < c ==> (#[trigger] cells@[k])@ == one_line(cell_text(*d, r as int, k)),
                decreases ncols - c,
            {
                let v = match d.cell(r, c) {
                    Some(v) => v,
                    None => String::new(),
                };
                cells.push(one_line_text(v.as_str()));
                c += 1;
            }
            let ghost before = out@;
            push_preview_line(&mut out, &cells);
            push_str(&mut out, "\n");
            proof {
                assert(texts(cells@) =~= preview_cells(*d, r as int, ncols as nat));
                assert(body.take(r + 1).drop_last() =~= body.take(r as int));
                body.take(r as int).lemma_flatten_push(body[r as int]);
                assert(body.take(r as int).push(body[r as int]) =~= body.take(r + 1));
                assert(out@ =~= before + body[r as int]);
            }
            r += 1;
        }
        proof {
            assert(body.take(nrows as int) =~= body);
        }
        push_str(&mut out, "\n");
        push_decimal(&mut out, rows);
        push_str(&mut out, " rows x ");
        push_decimal(&mut out, columns);
        push_str(&mut out, " columns");
        if d.is_dirty() {
            push_str(&mut out, " - edited");
        }
        assert(out@ =~= preview_text(*d, max_rows as nat, max_columns as nat));
        out
    }
}


/// Deletes the shown rows `lo..=hi`, the last first.
fn delete_rows_down(d: &mut CsvDocument, lo: usize, hi: usize) -> (r: Result<(), CsvError>)
    requires
        old(d).wf(),
        lo <= hi,
    ensures
        final(d).wf(),
        hi >= old(d).spec_row_count() ==> r == Err::<(), CsvError>(CsvError::InvalidRow { row: hi })
            && *final(d) == *old(d),
        hi < old(d).spec_row_count() ==> r is Ok && rows_deleted(*old(d), *final(d), lo as int, hi as int)
            && final(d).spec_row_count() == old(d).spec_row_count() - (hi - lo + 1),
{
    let mut i = hi;
    loop
        invariant
            d.wf(),
            lo <= i <= hi,
            i == hi ==> *d == *old(d),
            i < hi ==> hi < old(d).spec_row_count() && rows_deleted(*old(d), *d, i + 1, hi as int),
            d.spec_row_count() == old(d).spec_row_count() - (hi - i),
        decreases i,
    {
        let ghost before = *d;
        match d.delete_row(i) {
            Ok(()) => {},
            Err(e) => {
                return Err(e);
            },
        }
        proof {
            let o = row_slots(*old(d));
            assert(o.take(i as int) + o.skip(hi + 1) =~= (o.take(i + 1) + o.skip(hi + 1)).remove(
                i as int,
            ));
        }
        if i == lo {
            return Ok(());
        }
        i -= 1;
    }
}

/// `new` is `old` with the shown rows `lo..=hi` deleted and nothing else
/// changed but the dirty flag.
pub open spec fn rows_deleted(old: CsvDocument, new: CsvDocument, lo: int, hi: int) -> bool {
    &&& row_slots(new) == row_slots(old).take(lo) + row_slots(old).skip(hi + 1)
    &&& same_base(new, old)
    &&& new.spec_dirty()
    &&& new.spec_path() == old.spec_path()
    &&& new.edit_list() == old.edit_list()
    &&& new.visible_columns() == old.visible_columns()
    &&& new.column_order_list() == old.column_order_list()
    &&& new.filter_list() == old.filter_list()
    &&& new.sort_key_list() == old.sort_key_list()
}

/// Deletes the shown columns `lo..=hi`, the last first.
fn delete_columns_down(d: &mut CsvDocument, lo: usize, hi: usize) -> (r: Result<(), CsvError>)
    requires
        old(d).wf(),
        lo <= hi,
    ensures
        final(d).wf(),
        hi >= old(d).visible_columns().len() ==> r == Err::<(), CsvError>(
            CsvError::InvalidColumn { column: hi },
        ) && *final(d) == *old(d),
        hi < old(d).visible_columns().len() ==> r is Ok && columns_deleted(
            *old(d),
            *final(d),
            lo as int,
            hi as int,
        ),
{
    let ghost vc = d.visible_columns();
    let mut i = hi;
    loop
        invariant
            d.wf(),
            lo <= i <= hi,
            vc == old(d).visible_columns(),
            i == hi ==> *d == *old(d),
            i < hi ==> hi < vc.len() && columns_deleted(*old(d), *d, i + 1, hi as int),
        decreases i,
    {
        match d.delete_column(i) {
            Ok(()) => {},
            Err(e) => {
                return Err(e);
            },
        }
        proof {
            assert((vc.take(i + 1) + vc.skip(hi + 1)).remove(i as int) =~= vc.take(i as int) + vc.skip(
                hi + 1,
            ));
            assert(vc.take(hi + 1) + vc.skip(hi + 1) =~= vc);
        }
        if i == lo {
            return Ok(());
        }
        i -= 1;
    }
}

/// `new` is `old` with the shown columns `lo..=hi` deleted and nothing else
/// changed but the dirty flag.
pub open spec fn columns_deleted(old: CsvDocument, new: CsvDocument, lo: int, hi: int) -> bool {
    &&& new.visible_columns() == old.visible_columns().take(lo) + old.visible_columns().skip(hi + 1)
    &&& row_slots(new) == row_slots(old)
    &&& same_base(new, old)
    &&& new.spec_dirty()
    &&& new.spec_path() == old.spec_path()
    &&& new.edit_list() == old.edit_list()
    &&& new.column_order_list() == old.column_order_list()
    &&& new.inserted_column_count() == old.inserted_column_count()
    &&& new.filter_list() == old.filter_list()
    &&& new.sort_key_list() == old.sort_key_list()
}

/// Deletes every shown row, the last first.
fn delete_all_rows(d: &mut CsvDocument)
    requires
        old(d).wf(),
    ensures
        final(d).wf(),
        final(d).spec_row_count() == 0,
        old(d).spec_row_count() == 0 ==> *final(d) == *old(d),
        old(d).spec_row_count() > 0 ==> rows_deleted(
            *old(d),
            *final(d),
            0,
            old(d).spec_row_count() - 1,
        ),
{
    let n = d.row_count();
    if n > 0 {
        let r = delete_rows_down(d, 0, n - 1);
    }
}

/// The error that clearing the rectangle `top..=bottom` by `left..=right`
/// cell by cell, row by row, first runs into, if any.
pub open spec fn clear_error(top: usize, left: usize, bottom: usize, right: usize, rows: nat, cols: nat) -> Option<
    CsvError,
> {
    if left >= cols {
        Some(CsvError::InvalidColumn { column: left })
    } else if top >= rows {
        Some(CsvError::InvalidRow { row: top })
    } else if right >= cols {
        Some(CsvError::InvalidColumn { column: cols as usize })
    } else if bottom >= rows {
        Some(CsvError::InvalidRow { row: rows as usize })
    } else {
        None
    }
}

/// The cells of the rectangle that clearing it row by row has emptied when
/// it stops at its first error: none when the rectangle starts outside the
/// table; the top row up to the last column when it runs past the columns;
/// every row up to the last one when it runs past the rows.
pub open spec fn cleared_on_error(
    top: usize,
    left: usize,
    right: usize,
    rows: nat,
    cols: nat,
    row: int,
    column: int,
) -> bool {
    if left >= cols || top >= rows {
        false
    } else if right >= cols {
        row == top && left <= column < cols
    } else {
        top <= row < rows && left <= column <= right
    }
}

/// Clears the cells of the rectangle, row by row.
fn clear_rect(d: &mut CsvDocument, top: usize, left: usize, bottom: usize, right: usize) -> (r: Result<
    (),
    CsvError,
>)
    requires
        old(d).wf(),
        top <= bottom,
        left <= right,
    ensures
        final(d).wf(),
        final(d).data_record() == old(d).data_record(),
        ({
            let e = clear_error(
                top,
                left,
                bottom,
                right,
                old(d).spec_row_count(),
                old(d).visible_columns().len(),
            );
            &&& e is None ==> r is Ok
            &&& e matches Some(x) ==> r == Err::<(), CsvError>(x)
        }),
        r is Ok ==> forall|row: int, column: int|
            #![trigger final(d).spec_cell(row, column)]
            top <= row <= bottom && left <= column <= right ==> final(d).spec_cell(row, column)
                == Some(Seq::<char>::empty()),
        forall|row: int, column: int|
            #![trigger final(d).spec_cell(row, column)]
            !(top <= row <= bottom && left <= column <= right) ==> final(d).spec_cell(row, column)
                == old(d).spec_cell(row, column),
        r is Err ==> forall|row: int, column: int|
            #![trigger final(d).spec_cell(row, column)]
            top <= row <= bottom && left <= column <= right ==> final(d).spec_cell(row, column)
                == if cleared_on_error(
                top,
                left,
                right,
                old(d).spec_row_count(),
                old(d).visible_columns().len(),
                row,
                column,
            ) {
                Some(Seq::<char>::empty())
            } else {
                old(d).spec_cell(row, column)
            },
{
    let ghost rows = d.spec_row_count();
    let ghost cols = d.visible_columns().len();
    let mut row = top;
    loop
        invariant
            d.wf(),
            top <= row <= bottom,
            left <= right,
            rows == old(d).spec_row_count(),
            cols == old(d).visible_columns().len(),
            d.spec_row_count() == rows,
            d.data_record() == old(d).data_record(),
            d.visible_columns().len() == cols,
            forall|x: int| #[trigger] d.spec_storage_row(x) == old(d).spec_storage_row(x),
            forall|x: int| #[trigger] d.spec_real_column(x) == old(d).spec_real_column(x),
            row > top ==> (left < cols && top < rows && right < cols && row <= rows),
            forall|rr: int, cc: int|
                #![trigger d.spec_cell(rr, cc)]
                top <= rr < row && left <= cc <= right ==> d.spec_cell(rr, cc) == Some(
                    Seq::<char>::empty(),
                ),
            forall|rr: int, cc: int|
                #![trigger d.spec_cell(rr, cc)]
                !(top <= rr < row && left <= cc <= right) ==> d.spec_cell(rr, cc) == old(d).spec_cell(
                    rr,
                    cc,
                ),
        decreases bottom - row,
    {
        let mut column = left;
        loop
            invariant_except_break
                d.wf(),
                top <= row <= bottom,
                left <= column <= right,
                rows == old(d).spec_row_count(),
                cols == old(d).visible_columns().len(),
                d.spec_row_count() == rows,
                d.data_record() == old(d).data_record(),
            d.data_record() == old(d).data_record(),
                d.visible_columns().len() == cols,
                forall|x: int| #[trigger] d.spec_storage_row(x) == old(d).spec_storage_row(x),
                forall|x: int| #[trigger] d.spec_real_column(x) == old(d).spec_real_column(x),
                row > top ==> (left < cols && top < rows && right < cols && row <= rows),
                column > left ==> (left < cols && row < rows && column <= cols),
                forall|rr: int, cc: int|
                    #![trigger d.spec_cell(rr, cc)]
                    ((top <= rr < row && left <= cc <= right) || (rr == row && left <= cc < column))
                        ==> d.spec_cell(rr, cc) == Some(Seq::<char>::empty()),
                forall|rr: int, cc: int|
                    #![trigger d.spec_cell(rr, cc)]
                    !((top <= rr < row && left <= cc <= right) || (rr == row && left <= cc
                        < column)) ==> d.spec_cell(rr, cc) == old(d).spec_cell(rr, cc),
            ensures
                d.wf(),
                d.spec_row_count() == rows,
                d.data_record() == old(d).data_record(),
            d.data_record() == old(d).data_record(),
                d.visible_columns().len() == cols,
                forall|x: int| #[trigger] d.spec_storage_row(x) == old(d).spec_storage_row(x),
                forall|x: int| #[trigger] d.spec_real_column(x) == old(d).spec_real_column(x),
                left < cols && top < rows && right < cols && row < rows,
                forall|rr: int, cc: int|
                    #![trigger d.spec_cell(rr, cc)]
                    (top <= rr <= row && left <= cc <= right) ==> d.spec_cell(rr, cc) == Some(
                        Seq::<char>::empty(),
                    ),
                forall|rr: int, cc: int|
                    #![trigger d.spec_cell(rr, cc)]
                    !(top <= rr <= row && left <= cc <= right) ==> d.spec_cell(rr, cc) == old(
                        d,
                    ).spec_cell(rr, cc),
            decreases right - column,
        {
            let ghost before = *d;
            match d.set_cell(row, column, "") {
                Ok(()) => {},
                Err(e) => {
                    proof {
                        assert(before.spec_real_column(column as int) == old(d).spec_real_column(
                            column as int,
                        ));
                        assert(before.spec_storage_row(row as int) == old(d).spec_storage_row(
                            row as int,
                        ));
                        assert(column >= cols || row >= rows);
                        assert forall|rr: int, cc: int|
                            top <= rr <= bottom && left <= cc <= right implies ((top <= rr < row
                                && left <= cc <= right) || (rr == row && left <= cc < column))
                            == cleared_on_error(top, left, right, rows, cols, rr, cc) by {}
                    }
                    return Err(e);
                },
            }
            proof {
                reveal_strlit("");
                assert forall|x: int| #[trigger] d.spec_storage_row(x) == old(d).spec_storage_row(x) by {
                    assert(before.spec_storage_row(x) == old(d).spec_storage_row(x));
                }
                assert forall|x: int| #[trigger] d.spec_real_column(x) == old(d).spec_real_column(x) by {
                    assert(before.spec_real_column(x) == old(d).spec_real_column(x));
                }
                assert(before.spec_real_column(column as int) == old(d).spec_real_column(column as int));
                assert(before.spec_storage_row(row as int) == old(d).spec_storage_row(row as int));
            }
            if column == right {
                break;
            }
            column += 1;
        }
        if row == bottom {
            return Ok(());
        }
        row += 1;
    }
}


/// A path that is a bare file name on every platform: not empty, not `.` or
/// `..`, and free of `/`, `\\` and `:` (separators or prefixes somewhere).
pub open spec fn plain_file_name(path: Seq<char>) -> bool {
    &&& path.len() > 0
    &&& path != "."@
    &&& path != ".."@
    &&& forall|i: int| 0 <= i < path.len() ==> path[i] != '/' && path[i] != '\\' && path[i] != ':'
}

/// A directory part that reads the same way on every platform: `/`
/// separators only, no `\\`, no `:` and no leading `//`.
pub open spec fn plain_dir(dir: Seq<char>) -> bool {
    &&& forall|i: int| 0 <= i < dir.len() ==> dir[i] != '\\' && dir[i] != ':'
    &&& !(dir.len() >= 2 && dir[0] == '/' && dir[1] == '/')
}

/// The final component of a path, as text.
///
/// Calls `std::path::Path::file_name` (converting the text to a path and the
/// component back to text). Claimed, as its documentation says: a bare file
/// name is its own final component, and a path made of a directory part with
/// `/` separators, a `/` and a file name ends in that file name (as
/// `tmp/foo.txt` ends in `foo.txt`). Nothing is claimed of other paths: what
/// their final component is depends on the platform's path syntax.
#[verifier::external_body]
fn path_file_name(path: &str) -> (r: Option<String>)
    ensures
        plain_file_name(path@) ==> r is Some && r->0@ == path@,
        forall|dir: Seq<char>, name: Seq<char>|
            #![trigger dir + seq!['/'] + name]
            path@ == dir + seq!['/'] + name && plain_dir(dir) && plain_file_name(name) ==> r is Some
                && r->0@ == name,
{
    match std::path::Path::new(path).file_name() {
        Some(n) => match n.to_str() {
            Some(t) => Some(t.to_owned()),
            None => None,
        },
        None => None,
    }
}

/// The window title for a file name: the name and the application, or the
/// application alone.
pub fn title_for(name: Option<&str>) -> (s: String)
    ensures
        s@ == match name {
            Some(n) => n@ + " - Editable"@,
            None => "Editable"@,
        },
{
    match name {
        Some(n) => {
            let mut s = n.to_owned();
            push_str(&mut s, " - Editable");
            s
        },
        None => "Editable".to_owned(),
    }
}

impl EditableState {
    /// The window title: the open file's name and the application.
    pub fn title(&self) -> (s: String)
        requires
            self.wf(),
        ensures
            (self.document is None || self.document->0.spec_path() is None) ==> s@ == "Editable"@,
            (self.document matches Some(d) && d.spec_path() matches Some(p) && plain_file_name(p))
                ==> s@ == self.document->0.spec_path()->0 + " - Editable"@,
            forall|dir: Seq<char>, name: Seq<char>|
                #![trigger dir + seq!['/'] + name]
                (self.document matches Some(d) && d.spec_path() == Some(dir + seq!['/'] + name))
                    && plain_dir(dir) && plain_file_name(name) ==> s@ == name + " - Editable"@,
            s@ == "Editable"@ || exists|n: Seq<char>| s@ == n + " - Editable"@,
    {
        let path = match &self.document {
            Some(d) => d.path(),
            None => None,
        };
        let name = match path {
            Some(p) => path_file_name(p),
            None => None,
        };
        match name {
            Some(n) => {
                let s = title_for(Some(n.as_str()));
                assert(s@ == n@ + " - Editable"@);
                s
            },
            None => title_for(None),
        }
    }

    /// Deletes what is selected: the selected rows or columns (from the last
    /// one), every row, or the texts of the selected cells.
    pub fn delete_selection(&mut self) -> (r: Result<(), CsvError>)
        requires
            old(self).wf(),
        ensures
            old(self).document matches Some(d) ==> final(self).document is Some
                && final(self).document->0.data_record() == d.data_record(),
            final(self).wf(),
            final(self).selection == old(self).selection,
            final(self).filter_text == old(self).filter_text,
            final(self).undo_stack == old(self).undo_stack,
            final(self).redo_stack == old(self).redo_stack,
            old(self).document is None ==> r is Ok && final(self).document is None,
            old(self).document matches Some(d) ==> final(self).document is Some && {
                let f = final(self).document->0;
                match old(self).selection {
                    Selection::Row { anchor, focus } => {
                        let lo = min_usize(anchor, focus);
                        let hi = max_usize(anchor, focus);
                        &&& hi >= d.spec_row_count() ==> r == Err::<(), CsvError>(
                            CsvError::InvalidRow { row: hi },
                        ) && f == d
                        &&& hi < d.spec_row_count() ==> r is Ok && f.spec_row_count()
                            == d.spec_row_count() - (hi - lo + 1) && rows_deleted(
                            d,
                            f,
                            lo as int,
                            hi as int,
                        )
                    },
                    Selection::Column { anchor, focus } => {
                        let lo = min_usize(anchor, focus);
                        let hi = max_usize(anchor, focus);
                        let vc = d.visible_columns();
                        &&& hi >= vc.len() ==> r == Err::<(), CsvError>(
                            CsvError::InvalidColumn { column: hi },
                        ) && f == d
                        &&& hi < vc.len() ==> r is Ok && columns_deleted(d, f, lo as int, hi as int)
                    },
                    Selection::All => r is Ok && f.spec_row_count() == 0 && (d.spec_row_count() > 0
                        ==> rows_deleted(d, f, 0, d.spec_row_count() - 1)),
                    Selection::Cell(rect) => {
                        let top = min_usize(rect.anchor.row, rect.focus.row);
                        let bottom = max_usize(rect.anchor.row, rect.focus.row);
                        let left = min_usize(rect.anchor.column, rect.focus.column);
                        let right = max_usize(rect.anchor.column, rect.focus.column);
                        let e = clear_error(
                            top,
                            left,
                            bottom,
                            right,
                            d.spec_row_count(),
                            d.visible_columns().len(),
                        );
                        &&& e is None ==> r is Ok
                        &&& e matches Some(x) ==> r == Err::<(), CsvError>(x)
                        &&& r is Ok ==> forall|row: int, column: int|
                            #![trigger f.spec_cell(row, column)]
                            top <= row <= bottom && left <= column <= right ==> f.spec_cell(
                                row,
                                column,
                            ) == Some(Seq::<char>::empty())
                        &&& r is Err ==> forall|row: int, column: int|
                            #![trigger f.spec_cell(row, column)]
                            top <= row <= bottom && left <= column <= right ==> f.spec_cell(
                                row,
                                column,
                            ) == if cleared_on_error(
                                top,
                                left,
                                right,
                                d.spec_row_count(),
                                d.visible_columns().len(),
                                row,
                                column,
                            ) {
                                Some(Seq::<char>::empty())
                            } else {
                                d.spec_cell(row, column)
                            }
                        &&& forall|row: int, column: int|
                            #![trigger f.spec_cell(row, column)]
                            !(top <= row <= bottom && left <= column <= right) ==> f.spec_cell(
                                row,
                                column,
                            ) == d.spec_cell(row, column)
                    },
                }
            },
    {
        let selection = self.selection;
        match &mut self.document {
            Some(d) => match selection {
                Selection::Row { anchor, focus } => {
                    let lo = if anchor <= focus {
                        anchor
                    } else {
                        focus
                    };
                    let hi = if anchor >= focus {
                        anchor
                    } else {
                        focus
                    };
                    delete_rows_down(d, lo, hi)
                },
                Selection::Column { anchor, focus } => {
                    let lo = if anchor <= focus {
                        anchor
                    } else {
                        focus
                    };
                    let hi = if anchor >= focus {
                        anchor
                    } else {
                        focus
                    };
                    delete_columns_down(d, lo, hi)
                },
                Selection::All => {
                    delete_all_rows(d);
                    Ok(())
                },
                Selection::Cell(rect) => {
                    let (top, left, bottom, right) = rect.bounds();
                    clear_rect(d, top, left, bottom, right)
                },
            },
            None => Ok(()),
        }
    }
}


/// Above this many selected cells only the count is worked out.
pub const STATS_CELL_LIMIT: usize = 100000;

/// `a * b`, or the largest `usize` when that is larger.
pub open spec fn saturated_product(a: nat, b: nat) -> nat {
    if a * b > usize::MAX {
        usize::MAX as nat
    } else {
        a * b
    }
}

/// `a - b`, or 0 when that is negative.
pub open spec fn floor_sub(a: nat, b: nat) -> nat {
    if a >= b {
        (a - b) as nat
    } else {
        0
    }
}

/// The rows and columns `(first row, last row, first column, last column)`
/// of a selection inside a table of `rows` by `cols` (both positive).
pub open spec fn selection_block(sel: Selection, rows: nat, cols: nat) -> (nat, nat, nat, nat) {
    match sel {
        Selection::Cell(rect) => (
            min_usize(rect.anchor.row, rect.focus.row) as nat,
            at_most(max_usize(rect.anchor.row, rect.focus.row) as nat, (rows - 1) as nat),
            min_usize(rect.anchor.column, rect.focus.column) as nat,
            at_most(max_usize(rect.anchor.column, rect.focus.column) as nat, (cols - 1) as nat),
        ),
        Selection::Row { anchor, focus } => (
            min_usize(anchor, focus) as nat,
            at_most(max_usize(anchor, focus) as nat, (rows - 1) as nat),
            0,
            (cols - 1) as nat,
        ),
        Selection::Column { anchor, focus } => (
            0,
            (rows - 1) as nat,
            min_usize(anchor, focus) as nat,
            at_most(max_usize(anchor, focus) as nat, (cols - 1) as nat),
        ),
        Selection::All => (0, (rows - 1) as nat, 0, (cols - 1) as nat),
    }
}

/// Lies between two positions, either way round.
pub open spec fn between(x: int, a: int, b: int) -> bool {
    (a <= x && x <= b) || (b <= x && x <= a)
}

/// The block a selection summarises is exactly the part of the table it
/// spans: for a cell rectangle, the rows and columns between its anchor and
/// focus; for a row range, every column of the rows between its ends; for a
/// column range, every row of the columns between its ends; for everything,
/// the whole table. Positions past the table are left out.
pub proof fn lemma_selection_block_spans(sel: Selection, rows: nat, cols: nat, r: int, c: int)
    requires
        rows > 0,
        cols > 0,
        0 <= r,
        0 <= c,
    ensures
        ({
            let (r0, r1, c0, c1) = selection_block(sel, rows, cols);
            let in_rows = r0 <= r && r <= r1;
            let in_cols = c0 <= c && c <= c1;
            match sel {
                Selection::Cell(rect) => {
                    &&& in_rows <==> (between(r, rect.anchor.row as int, rect.focus.row as int)
                        && r < rows)
                    &&& in_cols <==> (between(c, rect.anchor.column as int, rect.focus.column as int)
                        && c < cols)
                },
                Selection::Row { anchor, focus } => {
                    &&& in_rows <==> (between(r, anchor as int, focus as int) && r < rows)
                    &&& in_cols <==> c < cols
                },
                Selection::Column { anchor, focus } => {
                    &&& in_rows <==> r < rows
                    &&& in_cols <==> (between(c, anchor as int, focus as int) && c < cols)
                },
                Selection::All => {
                    &&& in_rows <==> r < rows
                    &&& in_cols <==> c < cols
                },
            }
        }),
{
}

/// Rows of equal width, joined, hold each row's values in turn.
proof fn lemma_flatten_grid(g: Seq<Seq<Seq<char>>>, nc: nat)
    requires
        forall|i: int| 0 <= i < g.len() ==> (#[trigger] g[i]).len() == nc,
    ensures
        g.flatten().len() == g.len() * nc,
        forall|i: int, j: int|
            0 <= i < g.len() && 0 <= j < nc ==> g.flatten()[i * nc + j] == #[trigger] g[i][j],
    decreases g.len(),
{
    if g.len() > 0 {
        let t = g.drop_first();
        assert forall|i: int| 0 <= i < t.len() implies (#[trigger] t[i]).len() == nc by {
            assert(t[i] == g[i + 1]);
        }
        lemma_flatten_grid(t, nc);
        assert(g.flatten() == g.first() + t.flatten());
        assert(g.len() * nc == nc + t.len() * nc) by (nonlinear_arith)
            requires
                t.len() == g.len() - 1,
        ;
        assert forall|i: int, j: int| 0 <= i < g.len() && 0 <= j < nc implies g.flatten()[i * nc + j]
            == #[trigger] g[i][j] by {
            if i > 0 {
                assert(t[i - 1] == g[i]);
                assert(i * nc + j == nc + ((i - 1) * nc + j)) by (nonlinear_arith);
                assert((i - 1) * nc + j < t.len() * nc) by (nonlinear_arith)
                    requires
                        0 <= i - 1 < t.len(),
                        0 <= j < nc,
                ;
                assert(0 <= (i - 1) * nc) by (nonlinear_arith)
                    requires
                        i >= 1,
                ;
            }
        }
    }
}

/// The values summarised for a block are all its cells, row by row: the
/// cell in the block's `i`-th row and `j`-th column is the `i * width + j`-th
/// value, and there are as many values as cells.
pub proof fn lemma_block_values_cells(d: CsvDocument, r0: nat, r1: nat, c0: nat, c1: nat)
    requires
        r0 <= r1,
        c0 <= c1,
    ensures
        block_values(d, r0, r1, c0, c1).len() == (r1 - r0 + 1) * (c1 - c0 + 1),
        forall|i: int, j: int|
            0 <= i <= r1 - r0 && 0 <= j <= c1 - c0 ==> #[trigger] block_values(d, r0, r1, c0, c1)[i * (
            c1 - c0 + 1) + j] == cell_text(d, r0 + i, c0 + j),
{
    let nr = (r1 - r0 + 1) as nat;
    let nc = (c1 - c0 + 1) as nat;
    let g = Seq::new(nr, |i: int| Seq::new(nc, |j: int| cell_text(d, r0 + i, c0 + j)));
    lemma_flatten_grid(g, nc);
    assert(block_values(d, r0, r1, c0, c1) == g.flatten());
    assert forall|i: int, j: int| 0 <= i <= r1 - r0 && 0 <= j <= c1 - c0 implies #[trigger] block_values(
        d,
        r0,
        r1,
        c0,
        c1,
    )[i * (c1 - c0 + 1) + j] == cell_text(d, r0 + i, c0 + j) by {
        assert(g[i][j] == cell_text(d, r0 + i, c0 + j));
    }
}

/// How many cells a selection counts as, before any is read.
pub open spec fn selection_cell_count(sel: Selection, rows: nat, cols: nat) -> nat {
    let (r0, r1, c0, c1) = selection_block(sel, rows, cols);
    match sel {
        Selection::Cell(_) => saturated_product(floor_sub(r1, r0) + 1, floor_sub(c1, c0) + 1),
        Selection::Row { .. } => saturated_product(floor_sub(r1, r0) + 1, cols),
        Selection::Column { .. } => saturated_product(rows, floor_sub(c1, c0) + 1),
        Selection::All => saturated_product(rows, cols),
    }
}

/// The texts of the cells of rows `r0..=r1` and columns `c0..=c1`, row by row.
pub open spec fn block_values(d: CsvDocument, r0: nat, r1: nat, c0: nat, c1: nat) -> Seq<Seq<char>> {
    let nr: nat = if r1 >= r0 {
        (r1 - r0 + 1) as nat
    } else {
        0
    };
    let nc: nat = if c1 >= c0 {
        (c1 - c0 + 1) as nat
    } else {
        0
    };
    Seq::new(nr, |i: int| Seq::new(nc, |j: int| cell_text(d, r0 + i, c0 + j))).flatten()
}

/// `a * b` for counts, saturating.
fn saturating_product(a: usize, b: usize) -> (r: usize)
    ensures
        r == saturated_product(a as nat, b as nat),
{
    match a.checked_mul(b) {
        Some(p) => p,
        None => usize::MAX,
    }
}

impl EditableState {
    /// Summarises the selected cells of the open document.
    ///
    /// Without a document, or with an empty table, there is no summary. A
    /// selection counting more than `STATS_CELL_LIMIT` cells gets only its
    /// count. Otherwise the selected cells (inside the table, row by row) are
    /// summarised by `compute_stats`.
    pub fn selection_stats<F: Fn(&str) -> Option<u64>>(&self, numbers: &F) -> (r: (
        Vec<SelectionStat>,
        Option<Vec<u64>>,
    ))
        requires
            self.wf(),
            is_number_reader(numbers),
        ensures
            match self.document {
                None => r.0@.len() == 0 && r.1 is None,
                Some(d) => {
                    let rows = d.spec_row_count();
                    let cols = d.spec_column_count();
                    if rows == 0 || cols == 0 {
                        r.0@.len() == 0 && r.1 is None
                    } else if selection_cell_count(self.selection, rows, cols) > STATS_CELL_LIMIT {
                        r.0@.map_values(|s: SelectionStat| stat_view(s)) == seq![
                            (
                                SelectionMetric::Total,
                                crate::formatting::decimal(
                                    selection_cell_count(self.selection, rows, cols),
                                ),
                            ),
                        ] && r.1 is None
                    } else {
                        let (r0, r1, c0, c1) = selection_block(self.selection, rows, cols);
                        let values = block_values(d, r0, r1, c0, c1);
                        &&& values.len() <= 1 ==> r.0@.len() == 0 && r.1 is None
                        &&& values.len() > 1 ==> r.0@.map_values(|s: SelectionStat| stat_view(s))
                            == count_stats(values)
                        &&& values.len() > 1 ==> match r.1 {
                            Some(v) => filled_texts(values).len() > 0 && filled_numbers(
                                numbers,
                                values,
                            ) == Some(v@),
                            None => filled_texts(values).len() == 0 || filled_numbers(
                                numbers,
                                values,
                            ) is None,
                        }
                    }
                },
            },
    {
        let d = match &self.document {
            Some(d) => d,
            None => {
                return (Vec::new(), None);
            },
        };
        let rows = d.row_count();
        let cols = d.column_count();
        if rows == 0 || cols == 0 {
            return (Vec::new(), None);
        }
        let (r0, r1, c0, c1) = match self.selection {
            Selection::Cell(rect) => {
                let (top, left, bottom, right) = rect.bounds();
                (
                    top,
                    if bottom <= rows - 1 {
                        bottom
                    } else {
                        rows - 1
                    },
                    left,
                    if right <= cols - 1 {
                        right
                    } else {
                        cols - 1
                    },
                )
            },
            Selection::Row { anchor, focus } => {
                let top = if anchor <= focus {
                    anchor
                } else {
                    focus
                };
                let bottom = if anchor >= focus {
                    anchor
                } else {
                    focus
                };
                (
                    top,
                    if bottom <= rows - 1 {
                        bottom
                    } else {
                        rows - 1
                    },
                    0,
                    cols - 1,
                )
            },
            Selection::Column { anchor, focus } => {
                let left = if anchor <= focus {
                    anchor
                } else {
                    focus
                };
                let right = if anchor >= focus {
                    anchor
                } else {
                    focus
                };
                (
                    0,
                    rows - 1,
                    left,
                    if right <= cols - 1 {
                        right
                    } else {
                        cols - 1
                    },
                )
            },
            Selection::All => (0, rows - 1, 0, cols - 1),
        };
        let span_rows = r1.saturating_sub(r0) + 1;
        let span_cols = c1.saturating_sub(c0) + 1;
        let cell_count = match self.selection {
            Selection::Cell(_) => saturating_product(span_rows, span_cols),
            Selection::Row { .. } => saturating_product(span_rows, cols),
            Selection::Column { .. } => saturating_product(rows, span_cols),
            Selection::All => saturating_product(rows, cols),
        };
        if cell_count > STATS_CELL_LIMIT {
            let mut only: Vec<SelectionStat> = Vec::new();
            only.push(SelectionStat { metric: SelectionMetric::Total, value: decimal_text(cell_count) });
            proof {
                assert(only@.map_values(|s: SelectionStat| stat_view(s)) =~= seq![
                    (SelectionMetric::Total, crate::formatting::decimal(cell_count as nat)),
                ]);
            }
            return (only, None);
        }
        let ghost nc: nat = if c1 >= c0 {
            (c1 - c0 + 1) as nat
        } else {
            0
        };
        let ghost grid_rows = Seq::new(
            if r1 >= r0 {
                (r1 - r0 + 1) as nat
            } else {
                0
            },
            |i: int| Seq::new(nc, |j: int| cell_text(*d, r0 + i, c0 + j)),
        );
        let mut values: Vec<String> = Vec::new();
        if r0 <= r1 && c0 <= c1 {
            let mut row = r0;
            while row <= r1
                invariant
                    d.wf(),
                    r0 <= row <= r1 + 1,
                    r1 < rows,
                    c0 <= c1 < cols,
                    nc == c1 - c0 + 1,
                    grid_rows == Seq::new(
                        (r1 - r0 + 1) as nat,
                        |i: int| Seq::new(nc, |j: int| cell_text(*d, r0 + i, c0 + j)),
                    ),
                    texts(values@) == grid_rows.take(row - r0).flatten(),
                decreases r1 + 1 - row,
            {
                let ghost before = values@;
                let mut column = c0;
                while column <= c1
                    invariant
                        d.wf(),
                        c0 <= column <= c1 + 1,
                        c1 < cols,
                        values@.len() == before.len() + (column - c0),
                        texts(values@).take(before.len() as int) == texts(before),
                        forall|j: int|
                            0 <= j < column - c0 ==> (#[trigger] values@[before.len() + j])@
                                == cell_text(*d, row as int, c0 + j),
                    decreases c1 + 1 - column,
                {
                    let v = match d.cell(row, column) {
                        Some(v) => v,
                        None => String::new(),
                    };
                    let ghost prev = values@;
                    values.push(v);
                    proof {
                        assert(texts(values@).take(before.len() as int) =~= texts(prev).take(
                            before.len() as int,
                        ));
                    }
                    column += 1;
                }
                proof {
                    let line = Seq::new(nc, |j: int| cell_text(*d, row as int, c0 + j));
                    assert(grid_rows[row - r0] == line);
                    assert(grid_rows.take(row + 1 - r0) =~= grid_rows.take(row - r0).push(line));
                    grid_rows.take(row - r0).lemma_flatten_push(line);
                    assert(values@.len() == before.len() + nc);
                    assert forall|k: int| 0 <= k < texts(values@).len() implies #[trigger] texts(
                        values@,
                    )[k] == (texts(before) + line)[k] by {
                        if k < before.len() {
                            assert(texts(values@).take(before.len() as int)[k] == texts(before)[k]);
                        } else {
                            assert(values@[before.len() + (k - before.len())]@ == cell_text(
                                *d,
                                row as int,
                                c0 + (k - before.len()),
                            ));
                        }
                    }
                    assert(texts(values@) =~= texts(before) + line);
                }
                row += 1;
            }
            proof {
                assert(grid_rows.take(r1 + 1 - r0) =~= grid_rows);
            }
        } else {
            proof {
                assert(grid_rows.len() == 0 || nc == 0);
                if nc == 0 {
                    assert forall|i: int| 0 <= i < grid_rows.len() implies #[trigger] grid_rows[i]
                        =~= Seq::<Seq<char>>::empty() by {}
                    lemma_flatten_empty_rows(grid_rows);
                }
                assert(texts(values@) =~= grid_rows.flatten());
            }
        }
        compute_stats(&values, numbers)
    }
}

/// Rows that are all empty flatten to nothing.
proof fn lemma_flatten_empty_rows(rows: Seq<Seq<Seq<char>>>)
    requires
        forall|i: int| 0 <= i < rows.len() ==> #[trigger] rows[i] == Seq::<Seq<char>>::empty(),
    ensures
        rows.flatten() == Seq::<Seq<char>>::empty(),
    decreases rows.len(),
{
    if rows.len() > 0 {
        assert forall|i: int| 0 <= i < rows.drop_first().len() implies #[trigger] rows.drop_first()[i]
            == Seq::<Seq<char>>::empty() by {
            assert(rows.drop_first()[i] == rows[i + 1]);
        }
        lemma_flatten_empty_rows(rows.drop_first());
        assert(rows.first() == Seq::<Seq<char>>::empty());
        assert(rows.flatten() =~= rows.first() + rows.drop_first().flatten());
    }
}

} // verus!
