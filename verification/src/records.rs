//! The finished table: one record per work with an archive, in an order that
//! does not depend on the order in which the works were processed.

use vstd::prelude::*;
use vstd::relations::{sorted_by, total_ordering};
use vstd::seq_lib::{lemma_sorted_unique, to_multiset_build, to_multiset_insert};
use crate::models::{
    copy_opt, opt_view, Author, Work, WorkLink, WorkLinkView, WorkRecord, WorkRecordView,
};
use crate::order::{
    lemma_text_le_antisymmetric, lemma_text_le_connected, lemma_text_le_reflexive,
    lemma_text_le_transitive, str_le, text_le, texts_view, without_repeats,
};

verus! {

/// The order of optional texts: an absent one first.
pub open spec fn opt_le(a: Option<Seq<char>>, b: Option<Seq<char>>) -> bool {
    match (a, b) {
        (None, _) => true,
        (Some(_), None) => false,
        (Some(x), Some(y)) => text_le(x, y),
    }
}

/// The order of records: by author, then by title, then by text, then by
/// address.
pub open spec fn record_le(x: WorkRecordView, y: WorkRecordView) -> bool {
    if x.author != y.author {
        text_le(x.author, y.author)
    } else if x.title != y.title {
        text_le(x.title, y.title)
    } else if x.text != y.text {
        text_le(x.text, y.text)
    } else {
        opt_le(x.url, y.url)
    }
}

/// `record_le` as a relation.
pub open spec fn record_order() -> spec_fn(WorkRecordView, WorkRecordView) -> bool {
    |x: WorkRecordView, y: WorkRecordView| record_le(x, y)
}

/// The views of a run of records.
pub open spec fn records_view(v: Seq<WorkRecord>) -> Seq<WorkRecordView> {
    v.map_values(|r: WorkRecord| r@)
}

/// Every record is itself or before itself.
pub proof fn lemma_record_le_reflexive(x: WorkRecordView)
    ensures
        record_le(x, x),
{
    if let Some(u) = x.url {
        lemma_text_le_reflexive(u);
    }
}

/// Two records, each the other or before it, are one record.
pub proof fn lemma_record_le_antisymmetric(x: WorkRecordView, y: WorkRecordView)
    requires
        record_le(x, y),
        record_le(y, x),
    ensures
        x == y,
{
    if x.author != y.author {
        lemma_text_le_antisymmetric(x.author, y.author);
    } else if x.title != y.title {
        lemma_text_le_antisymmetric(x.title, y.title);
    } else if x.text != y.text {
        lemma_text_le_antisymmetric(x.text, y.text);
    } else if let (Some(u), Some(v)) = (x.url, y.url) {
        lemma_text_le_antisymmetric(u, v);
    }
}

/// Two steps up in one field are a step up, and not back to the start.
proof fn lemma_field_steps(a: Seq<char>, b: Seq<char>, c: Seq<char>)
    requires
        text_le(a, b),
        text_le(b, c),
    ensures
        text_le(a, c),
        a == c ==> a == b,
{
    lemma_text_le_transitive(a, b, c);
    if a == c {
        lemma_text_le_antisymmetric(a, b);
    }
}

/// What is before a record is before what that record is before.
pub proof fn lemma_record_le_transitive(x: WorkRecordView, y: WorkRecordView, z: WorkRecordView)
    requires
        record_le(x, y),
        record_le(y, z),
    ensures
        record_le(x, z),
{
    if x.author != y.author || y.author != z.author {
        if x.author != y.author && y.author != z.author {
            lemma_field_steps(x.author, y.author, z.author);
        }
    } else if x.title != y.title || y.title != z.title {
        if x.title != y.title && y.title != z.title {
            lemma_field_steps(x.title, y.title, z.title);
        }
    } else if x.text != y.text || y.text != z.text {
        if x.text != y.text && y.text != z.text {
            lemma_field_steps(x.text, y.text, z.text);
        }
    } else if let (Some(u), Some(v), Some(w)) = (x.url, y.url, z.url) {
        lemma_text_le_transitive(u, v, w);
    }
}

/// Of two records one is the other or before it.
pub proof fn lemma_record_le_connected(x: WorkRecordView, y: WorkRecordView)
    ensures
        record_le(x, y) || record_le(y, x),
{
    lemma_text_le_connected(x.author, y.author);
    lemma_text_le_connected(x.title, y.title);
    lemma_text_le_connected(x.text, y.text);
    if let (Some(u), Some(v)) = (x.url, y.url) {
        lemma_text_le_connected(u, v);
    }
}

/// The order of records is total.
pub proof fn lemma_record_order_total()
    ensures
        total_ordering(record_order()),
{
    let r = record_order();
    assert forall|x: WorkRecordView| #[trigger] r(x, x) by {
        lemma_record_le_reflexive(x);
    }
    assert forall|x: WorkRecordView, y: WorkRecordView| #[trigger]
        r(x, y) && #[trigger] r(y, x) implies x == y by {
        lemma_record_le_antisymmetric(x, y);
    }
    assert forall|x: WorkRecordView, y: WorkRecordView, z: WorkRecordView| #[trigger]
        r(x, y) && #[trigger] r(y, z) implies r(x, z) by {
        lemma_record_le_transitive(x, y, z);
    }
    assert forall|x: WorkRecordView, y: WorkRecordView| #[trigger] r(x, y) || #[trigger] r(
        y,
        x,
    ) by {
        lemma_record_le_connected(x, y);
    }
}

/// The table does not remember in which order the records arrived: two runs
/// that produced the same records, each as often as the other, end with the
/// same table.
pub proof fn lemma_arrival_order_is_forgotten(a: Seq<WorkRecordView>, b: Seq<WorkRecordView>)
    requires
        a.to_multiset() == b.to_multiset(),
    ensures
        a.sort_by(record_order()) == b.sort_by(record_order()),
        table_of(a) == table_of(b),
{
    lemma_record_order_total();
    a.lemma_sort_by_ensures(record_order());
    b.lemma_sort_by_ensures(record_order());
    lemma_sorted_unique(a.sort_by(record_order()), b.sort_by(record_order()), record_order());
}

/// The table made of the records `records`: in the order of records, each
/// record once.
pub open spec fn table_of(records: Seq<WorkRecordView>) -> Seq<WorkRecordView> {
    without_repeats(records.sort_by(record_order()))
}

/// A copy of a record.
pub fn copy_record(r: &WorkRecord) -> (out: WorkRecord)
    ensures
        out@ == r@,
{
    WorkRecord {
        author: r.author.clone(),
        title: r.title.clone(),
        text: r.text.clone(),
        url: copy_opt(&r.url),
    }
}

/// Whether `a` is `b` or comes before it, as optional texts.
fn opt_str_le(a: &Option<String>, b: &Option<String>) -> (r: bool)
    ensures
        r == opt_le(opt_view(*a), opt_view(*b)),
{
    match (a, b) {
        (None, _) => true,
        (Some(_), None) => false,
        (Some(x), Some(y)) => str_le(x.as_str(), y.as_str()),
    }
}

/// Whether `a` is `b` or comes before it, in the order of records.
pub fn record_before_or_same(a: &WorkRecord, b: &WorkRecord) -> (r: bool)
    ensures
        r == record_le(a@, b@),
{
    if a.author != b.author {
        str_le(a.author.as_str(), b.author.as_str())
    } else if a.title != b.title {
        str_le(a.title.as_str(), b.title.as_str())
    } else if a.text != b.text {
        str_le(a.text.as_str(), b.text.as_str())
    } else {
        opt_str_le(&a.url, &b.url)
    }
}

/// Whether two records hold the same.
pub fn same_record(a: &WorkRecord, b: &WorkRecord) -> (r: bool)
    ensures
        r == (a@ == b@),
{
    if a.author != b.author || a.title != b.title || a.text != b.text {
        return false;
    }
    match (&a.url, &b.url) {
        (None, None) => true,
        (Some(x), Some(y)) => *x == *y,
        _ => false,
    }
}

/// Where in the sorted run `sorted` the record `x` belongs: after all that
/// are not after it.
fn insertion_point(sorted: &Vec<WorkRecord>, x: &WorkRecord) -> (p: usize)
    requires
        sorted_by(records_view(sorted@), record_order()),
    ensures
        p <= sorted.len(),
        forall|i: int| 0 <= i < p ==> record_le(#[trigger] records_view(sorted@)[i], x@),
        forall|j: int| p <= j < sorted.len() ==> record_le(x@, #[trigger] records_view(sorted@)[j]),
{
    let ghost v = records_view(sorted@);
    let mut lo: usize = 0;
    let mut hi: usize = sorted.len();
    while lo < hi
        invariant
            lo <= hi <= sorted.len(),
            v == records_view(sorted@),
            sorted_by(v, record_order()),
            forall|i: int| 0 <= i < lo ==> record_le(#[trigger] v[i], x@),
            forall|j: int| hi <= j < sorted.len() ==> record_le(x@, #[trigger] v[j]),
        decreases hi - lo,
    {
        let mid = lo + (hi - lo) / 2;
        if record_before_or_same(&sorted[mid], x) {
            assert forall|i: int| 0 <= i < mid + 1 implies record_le(#[trigger] v[i], x@) by {
                if i < mid {
                    assert(record_order()(v[i], v[mid as int]));
                    lemma_record_le_transitive(v[i], v[mid as int], x@);
                }
            }
            lo = mid + 1;
        } else {
            assert forall|j: int| mid <= j < sorted.len() implies record_le(
                x@,
                #[trigger] v[j],
            ) by {
                lemma_record_le_connected(v[mid as int], x@);
                if mid < j {
                    assert(record_order()(v[mid as int], v[j]));
                    lemma_record_le_transitive(x@, v[mid as int], v[j]);
                }
            }
            hi = mid;
        }
    }
    lo
}

/// The records `records` in the order of records.
pub fn sort_records(records: &Vec<WorkRecord>) -> (out: Vec<WorkRecord>)
    ensures
        records_view(out@) == records_view(records@).sort_by(record_order()),
{
    let ghost all = records_view(records@);
    let mut out: Vec<WorkRecord> = Vec::new();
    let mut i: usize = 0;
    assert(records_view(out@) =~= all.take(0));
    while i < records.len()
        invariant
            i <= records.len(),
            all == records_view(records@),
            sorted_by(records_view(out@), record_order()),
            records_view(out@).to_multiset() == all.take(i as int).to_multiset(),
        decreases records.len() - i,
    {
        let ghost before = records_view(out@);
        let x = copy_record(&records[i]);
        let p = insertion_point(&out, &x);
        out.insert(p, x);
        proof {
            let after = records_view(out@);
            assert(after =~= before.insert(p as int, x@));
            to_multiset_insert(before, p as int, x@);
            assert(all.take(i + 1) =~= all.take(i as int).push(x@));
            to_multiset_build(all.take(i as int), x@);
            assert forall|a: int, b: int| 0 <= a < b < after.len() implies record_order()(
                #[trigger] after[a],
                #[trigger] after[b],
            ) by {
                if b < p {
                    assert(record_order()(before[a], before[b]));
                } else if b == p {
                    assert(record_le(before[a], x@));
                } else if a == p {
                    assert(record_le(x@, before[b - 1]));
                } else if a < p {
                    assert(record_order()(before[a], before[b - 1]));
                } else {
                    assert(record_order()(before[a - 1], before[b - 1]));
                }
            }
        }
        i += 1;
    }
    proof {
        assert(all.take(i as int) =~= all);
        lemma_record_order_total();
        all.lemma_sort_by_ensures(record_order());
        lemma_sorted_unique(records_view(out@), all.sort_by(record_order()), record_order());
    }
    out
}

/// What a record holds, column by column: author, title, text and address,
/// the address empty where the record has none.
pub open spec fn row_of(record: WorkRecordView) -> Seq<Seq<char>> {
    seq![
        record.author,
        record.title,
        record.text,
        match record.url {
            Some(u) => u,
            None => Seq::empty(),
        },
    ]
}

/// The row of the table that stands for `record`.
pub fn row(record: &WorkRecord) -> (out: Vec<String>)
    ensures
        texts_view(out@) == row_of(record@),
{
    let mut out: Vec<String> = Vec::new();
    out.push(record.author.clone());
    out.push(record.title.clone());
    out.push(record.text.clone());
    out.push(
        match &record.url {
            Some(u) => u.clone(),
            None => String::new(),
        },
    );
    assert(texts_view(out@) =~= row_of(record@));
    out
}

/// The records `records` without those that repeat the one before them.
pub fn dedup_records(records: &Vec<WorkRecord>) -> (out: Vec<WorkRecord>)
    ensures
        records_view(out@) == without_repeats(records_view(records@)),
{
    let ghost all = records_view(records@);
    let mut out: Vec<WorkRecord> = Vec::new();
    let mut i: usize = 0;
    assert(records_view(out@) =~= without_repeats(all.take(0)));
    while i < records.len()
        invariant
            i <= records.len(),
            all == records_view(records@),
            records_view(out@) == without_repeats(all.take(i as int)),
        decreases records.len() - i,
    {
        let ghost before = records_view(out@);
        proof {
            assert(all.take(i + 1).drop_last() =~= all.take(i as int));
            assert(all.take(i + 1).last() == all[i as int]);
            if i > 0 {
                assert(all.take(i + 1)[i - 1] == all[i - 1]);
            }
        }
        if i == 0 || !same_record(&records[i], &records[i - 1]) {
            out.push(copy_record(&records[i]));
            assert(records_view(out@) =~= before.push(all[i as int]));
        }
        i += 1;
    }
    assert(all.take(i as int) =~= all);
    out
}

/// The table made of the records `records`, in whatever order they arrived.
pub fn finish(records: &Vec<WorkRecord>) -> (out: Vec<WorkRecord>)
    ensures
        records_view(out@) == table_of(records_view(records@)),
{
    let sorted = sort_records(records);
    dedup_records(&sorted)
}

/// What one work contributes to the table. A work without an archive
/// (`link` is `None`) contributes nothing. A work with one contributes a
/// record, whose text is empty where the archive gave none (`text` is `None`).
pub open spec fn record_of(
    author: Seq<char>,
    title: Seq<char>,
    link: Option<WorkLinkView>,
    text: Option<Seq<char>>,
) -> Option<WorkRecordView> {
    match link {
        None => None,
        Some(l) => Some(
            WorkRecordView {
                author,
                title,
                text: match text {
                    Some(t) => t,
                    None => Seq::empty(),
                },
                url: l.html_link,
            },
        ),
    }
}

/// What the work `work` of `author` contributes to the table, given the
/// links of its card and the excerpt of its archive.
pub fn assemble(author: &Author, work: &Work, link: Option<&WorkLink>, text: Option<String>) -> (r:
    Option<WorkRecord>)
    ensures
        match r {
            Some(rec) => record_of(
                author.name@,
                work.title@,
                match link {
                    Some(l) => Some(l@),
                    None => None,
                },
                opt_view(text),
            ) == Some(rec@),
            None => link is None,
        },
{
    match link {
        None => None,
        Some(l) => {
            let text = match text {
                Some(t) => t,
                None => String::new(),
            };
            Some(
                WorkRecord {
                    author: author.name.clone(),
                    title: work.title.clone(),
                    text,
                    url: copy_opt(&l.html_link),
                },
            )
        },
    }
}

/// A run over the mirror, as far as it has come: the records gathered, in
/// the order in which they arrived, and the number of works that gave none.
#[derive(Debug, Clone, PartialEq, Eq)]
pub struct Run {
    pub records: Vec<WorkRecord>,
    pub skipped: usize,
}

/// The text of a run.
pub struct RunView {
    pub records: Seq<WorkRecordView>,
    pub skipped: nat,
}

impl View for Run {
    type V = RunView;

    open spec fn view(&self) -> RunView {
        RunView { records: records_view(self.records@), skipped: self.skipped as nat }
    }
}

/// A run after one more work: with one more record where the work
/// contributes one, else with one more work skipped. The count of skipped
/// works stops at the largest number that it can hold.
pub open spec fn after_work(run: RunView, contribution: Option<WorkRecordView>) -> RunView {
    match contribution {
        Some(record) => RunView { records: run.records.push(record), skipped: run.skipped },
        None => RunView {
            records: run.records,
            skipped: if run.skipped < usize::MAX {
                run.skipped + 1
            } else {
                run.skipped
            },
        },
    }
}

impl Run {
    /// A run that has seen no work yet.
    pub fn new() -> (run: Run)
        ensures
            run@ == (RunView { records: Seq::empty(), skipped: 0 }),
    {
        let run = Run { records: Vec::new(), skipped: 0 };
        assert(records_view(run.records@) =~= Seq::empty());
        run
    }

    /// Takes in the work `work` of `author`, with the links of its card and
    /// the excerpt of its archive, as far as there are any.
    pub fn take_in(
        &mut self,
        author: &Author,
        work: &Work,
        link: Option<&WorkLink>,
        text: Option<String>,
    )
        ensures
            final(self)@ == after_work(
                old(self)@,
                record_of(
                    author.name@,
                    work.title@,
                    match link {
                        Some(l) => Some(l@),
                        None => None,
                    },
                    opt_view(text),
                ),
            ),
    {
        let ghost before = records_view(self.records@);
        match assemble(author, work, link, text) {
            Some(record) => {
                self.records.push(record);
                assert(records_view(self.records@) =~= before.push(record@));
            },
            None => {
                if self.skipped < usize::MAX {
                    self.skipped = self.skipped + 1;
                }
            },
        }
    }

    /// The table of the run: its records in the order of records, each once.
    pub fn table(&self) -> (out: Vec<WorkRecord>)
        ensures
            records_view(out@) == table_of(self@.records),
    {
        finish(&self.records)
    }
}

} // verus!
