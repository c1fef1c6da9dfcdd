//! The table of the coding sequences that something is wrong with.

use crate::cds::{check_for_errors, report_of, upper_case, Cds, CdsSequence, ErrorReport};
use vstd::hash_map::StringHashMap;
use vstd::prelude::*;

verus! {

/// One row of the table: a sequence's identifier and what is wrong with the sequence.
#[derive(Debug)]
pub struct ReportRow {
    pub id: String,
    pub report: ErrorReport,
}

/// What a [`ReportRow`] holds, as mathematical values.
pub struct Entry {
    pub id: Seq<char>,
    pub report: ErrorReport,
}

impl View for ReportRow {
    type V = Entry;

    open spec fn view(&self) -> Entry {
        Entry { id: self.id@, report: self.report }
    }
}

impl DeepView for ReportRow {
    type V = Entry;

    open spec fn deep_view(&self) -> Entry {
        self@
    }
}

/// Whether the entry at `i` has the identifier `id`.
pub open spec fn is_entry_of(entries: Seq<Entry>, id: Seq<char>, i: int) -> bool {
    0 <= i < entries.len() && entries[i].id == id
}

/// Whether an entry has the identifier `id`.
pub open spec fn has_entry(entries: Seq<Entry>, id: Seq<char>) -> bool {
    exists|i: int| is_entry_of(entries, id, i)
}

/// The index of an entry with the identifier `id`.
pub open spec fn entry_index(entries: Seq<Entry>, id: Seq<char>) -> int {
    choose|i: int| is_entry_of(entries, id, i)
}

/// No two entries share an identifier.
pub open spec fn distinct_ids(entries: Seq<Entry>) -> bool {
    forall|i: int, j: int|
        0 <= i < j < entries.len() ==> (#[trigger] entries[i]).id != (#[trigger] entries[j]).id
}

/// The entries once `report` has been entered for `id`: it takes the place of the
/// report that was there for `id`, or else it is the last entry.
pub open spec fn inserted(entries: Seq<Entry>, id: Seq<char>, report: ErrorReport) -> Seq<Entry> {
    if has_entry(entries, id) {
        entries.update(entry_index(entries, id), Entry { id, report })
    } else {
        entries.push(Entry { id, report })
    }
}

/// A table from identifiers to reports that keeps its rows in the order in which their
/// identifiers came first.
pub struct ReportTable {
    rows: Vec<ReportRow>,
    // Where the row of each identifier is.
    index: StringHashMap<usize>,
}

impl View for ReportTable {
    type V = Seq<Entry>;

    closed spec fn view(&self) -> Seq<Entry> {
        self.rows.deep_view()
    }
}

impl ReportTable {
    /// The index names the row of every identifier in the table and of no other.
    pub closed spec fn wf(&self) -> bool {
        &&& forall|i: int|
            0 <= i < self.rows.len() ==> self.index@.contains_key(
                (#[trigger] self.rows[i]).id@,
            ) && self.index@[self.rows[i].id@] == i
        &&& forall|id: Seq<char>| #[trigger]
            self.index@.contains_key(id) ==> self.index@[id] < self.rows.len()
                && self.rows[self.index@[id] as int].id@ == id
    }

    /// In a table no two rows share an identifier.
    pub proof fn lemma_distinct_ids(&self)
        requires
            self.wf(),
        ensures
            distinct_ids(self@),
    {
    }

    /// The empty table.
    pub fn new() -> (table: Self)
        ensures
            table.wf(),
            table@ == Seq::<Entry>::empty(),
    {
        ReportTable { rows: Vec::new(), index: StringHashMap::new() }
    }

    /// The number of rows.
    pub fn len(&self) -> (n: usize)
        ensures
            n == self@.len(),
    {
        self.rows.len()
    }

    /// The row at `i`.
    pub fn row(&self, i: usize) -> (row: &ReportRow)
        requires
            i < self@.len(),
        ensures
            row@ == self@[i as int],
    {
        &self.rows[i]
    }

    /// The report that is entered for `id`, if there is one.
    pub fn get(&self, id: &str) -> (found: Option<ErrorReport>)
        requires
            self.wf(),
        ensures
            found is Some <==> has_entry(self@, id@),
            found matches Some(report) ==> is_entry_of(self@, id@, entry_index(self@, id@))
                && report == self@[entry_index(self@, id@)].report,
    {
        match self.index.get(id) {
            Some(at) => {
                let at = *at;
                assert(is_entry_of(self@, id@, at as int));
                Some(self.rows[at].report)
            },
            None => None,
        }
    }

    /// Enters `report` for `id`. A report that was entered for `id` before is replaced,
    /// in its row; an identifier that is new to the table gets the last row.
    pub fn insert(&mut self, id: String, report: ErrorReport)
        requires
            old(self).wf(),
        ensures
            final(self).wf(),
            final(self)@ == inserted(old(self)@, id@, report),
    {
        let ghost before = self@;
        let found = match self.index.get(id.as_str()) {
            Some(at) => Some(*at),
            None => None,
        };
        match found {
            Some(at) => {
                assert(is_entry_of(before, id@, at as int));
                self.rows.set(at, ReportRow { id, report });
            },
            None => {
                let at = self.rows.len();
                self.index.insert(id.clone(), at);
                self.rows.push(ReportRow { id, report });
            },
        }
    }
}

/// The table for `sequences`: each sequence in turn is checked, in upper case, and
/// entered if anything is wrong with it. So of the sequences that share an identifier
/// the last that something is wrong with decides.
pub open spec fn report_entries(sequences: Seq<Cds>) -> Seq<Entry>
    decreases sequences.len(),
{
    if sequences.len() == 0 {
        Seq::empty()
    } else {
        let before = report_entries(sequences.drop_last());
        let report = report_of(upper_case(sequences.last().sequence));
        if report.flagged() {
            inserted(before, sequences.last().id, report)
        } else {
            before
        }
    }
}

/// What entering a report does to a list without shared identifiers: the list still has
/// none, it has an entry for `id` and for every identifier that it had one for and for
/// no other, the report for `id` is the one entered, and every other report is as it
/// was.
pub proof fn lemma_inserted(
    entries: Seq<Entry>,
    id: Seq<char>,
    report: ErrorReport,
    other: Seq<char>,
)
    requires
        distinct_ids(entries),
    ensures
        distinct_ids(inserted(entries, id, report)),
        has_entry(inserted(entries, id, report), other) <==> has_entry(entries, other) || other
            == id,
        inserted(entries, id, report)[entry_index(inserted(entries, id, report), id)].report
            == report,
        has_entry(entries, other) && other != id ==> inserted(entries, id, report)[entry_index(
            inserted(entries, id, report),
            other,
        )].report == entries[entry_index(entries, other)].report,
{
    let after = inserted(entries, id, report);
    let at = if has_entry(entries, id) {
        entry_index(entries, id)
    } else {
        entries.len() as int
    };
    assert(is_entry_of(after, id, at));
    assert forall|i: int, j: int| 0 <= i < j < after.len() implies (#[trigger] after[i]).id != (
    #[trigger] after[j]).id by {
        if j >= entries.len() {
            assert(!is_entry_of(entries, id, i));
        }
    }
    if has_entry(entries, other) {
        let i = entry_index(entries, other);
        assert(is_entry_of(after, other, i));
    }
    if has_entry(after, other) && other != id {
        let k = entry_index(after, other);
        assert(is_entry_of(entries, other, k));
    }
}

/// Whether the sequence at `i` has the identifier `id` and something is wrong with it.
pub open spec fn is_flagged_with(sequences: Seq<Cds>, id: Seq<char>, i: int) -> bool {
    0 <= i < sequences.len() && sequences[i].id == id && report_of(
        upper_case(sequences[i].sequence),
    ).flagged()
}

/// The table has no two rows for one identifier.
pub proof fn lemma_report_distinct(sequences: Seq<Cds>)
    ensures
        distinct_ids(report_entries(sequences)),
    decreases sequences.len(),
{
    if sequences.len() > 0 {
        let last = sequences.last();
        lemma_report_distinct(sequences.drop_last());
        lemma_inserted(
            report_entries(sequences.drop_last()),
            last.id,
            report_of(upper_case(last.sequence)),
            last.id,
        );
    }
}

/// The table has a row for `id` if and only if something is wrong with a sequence of
/// that identifier.
pub proof fn lemma_report_has_entry(sequences: Seq<Cds>, id: Seq<char>)
    ensures
        has_entry(report_entries(sequences), id) <==> exists|i: int|
            is_flagged_with(sequences, id, i),
    decreases sequences.len(),
{
    if sequences.len() > 0 {
        let front = sequences.drop_last();
        let last = sequences.last();
        let n = sequences.len() - 1;
        let report = report_of(upper_case(last.sequence));
        lemma_report_has_entry(front, id);
        lemma_report_distinct(front);
        lemma_inserted(report_entries(front), last.id, report, id);
        if has_entry(report_entries(sequences), id) {
            if report.flagged() && last.id == id {
                assert(is_flagged_with(sequences, id, n));
            } else {
                let i = choose|i: int| is_flagged_with(front, id, i);
                assert(is_flagged_with(sequences, id, i));
            }
        }
        if exists|i: int| is_flagged_with(sequences, id, i) {
            let i = choose|i: int| is_flagged_with(sequences, id, i);
            if i < n {
                assert(is_flagged_with(front, id, i));
            }
        }
    }
}

/// The report in the row for `id` is that of the last sequence of that identifier that
/// something is wrong with.
pub proof fn lemma_report_last_decides(sequences: Seq<Cds>, id: Seq<char>, i: int)
    requires
        is_flagged_with(sequences, id, i),
        forall|j: int| i < j ==> !is_flagged_with(sequences, id, j),
    ensures
        has_entry(report_entries(sequences), id),
        report_entries(sequences)[entry_index(report_entries(sequences), id)].report == report_of(
            upper_case(sequences[i].sequence),
        ),
    decreases sequences.len(),
{
    let front = sequences.drop_last();
    let last = sequences.last();
    let n = sequences.len() - 1;
    let report = report_of(upper_case(last.sequence));
    lemma_report_has_entry(sequences, id);
    lemma_report_distinct(front);
    lemma_inserted(report_entries(front), last.id, report, id);
    if i < n {
        assert(!is_flagged_with(sequences, id, n));
        assert forall|j: int| i < j implies !is_flagged_with(front, id, j) by {
            if is_flagged_with(front, id, j) {
                assert(is_flagged_with(sequences, id, j));
            }
        }
        lemma_report_last_decides(front, id, i);
    }
}

/// Checks every sequence and collects those that something is wrong with.
pub fn generate_report_table(cds_sequences: &[CdsSequence]) -> (table: ReportTable)
    ensures
        table.wf(),
        table@ == report_entries(cds_sequences.deep_view()),
{
    let mut table = ReportTable::new();
    let mut i: usize = 0;
    while i < cds_sequences.len()
        invariant
            i <= cds_sequences.len(),
            table.wf(),
            table@ == report_entries(cds_sequences.deep_view().take(i as int)),
        decreases cds_sequences.len() - i,
    {
        let sequence = &cds_sequences[i];
        proof {
            let seen = cds_sequences.deep_view().take(i + 1);
            assert(seen.drop_last() =~= cds_sequences.deep_view().take(i as int));
        }
        let report = check_for_errors(sequence.sequence.as_str());
        if report.has_error() {
            table.insert(sequence.id.clone(), report);
        }
        i = i + 1;
    }
    proof {
        assert(cds_sequences.deep_view().take(cds_sequences.len() as int)
            =~= cds_sequences.deep_view());
    }
    table
}

} // verus!
