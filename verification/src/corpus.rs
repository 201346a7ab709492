use rayon::iter::{IndexedParallelIterator, IntoParallelRefIterator, ParallelIterator};
use vstd::prelude::*;

verus! {

use crate::compress::{gzip_compressed_len, gzip_len_of};
use crate::record::{record_wf, same_key, Record, RecordModel, Row, RowModel};

/// The record that one indexing pass builds from one row: the row's
/// fields plus the compressed size of its text.
pub open spec fn spec_record_of(row: RowModel) -> RecordModel {
    RecordModel {
        class: row.class,
        title: row.title,
        text: row.text,
        compressed_len: gzip_len_of(row.text),
    }
}

/// The records of the rows `rows[start..end]`, in input order.
pub open spec fn spec_records_of(rows: Seq<RowModel>, start: int, end: int) -> Seq<RecordModel> {
    rows.subrange(start, end).map_values(|r: RowModel| spec_record_of(r))
}

/// Compresses and packages one row.
fn record_of_row(row: &Row) -> (r: Record)
    ensures
        r@ == spec_record_of(row@),
{
    let compressed_len = gzip_compressed_len(row.text.as_str());
    Record::new(row.class.as_str(), row.title.as_str(), row.text.as_str(), compressed_len)
}

/// Compresses and packages the rows of one chunk, `rows[start..end]`.
/// Each chunk is processed independently, with no shared mutable
/// state.
fn process_chunk(rows: &Vec<Row>, start: usize, end: usize) -> (r: Vec<Record>)
    requires
        start <= end <= rows@.len(),
    ensures
        r.deep_view() == spec_records_of(rows.deep_view(), start as int, end as int),
{
    let mut out: Vec<Record> = Vec::new();
    let mut i: usize = start;
    while i < end
        invariant
            start <= i <= end <= rows@.len(),
            out.deep_view() == spec_records_of(rows.deep_view(), start as int, i as int),
        decreases end - i,
    {
        let rec = record_of_row(&rows[i]);
        let ghost prev = out.deep_view();
        out.push(rec);
        proof {
            assert(out.deep_view() =~= prev.push(rec@));
            assert(rec@ == spec_record_of(rows.deep_view()[i as int]));
            assert(out.deep_view() =~= spec_records_of(
                rows.deep_view(),
                start as int,
                i + 1 as int,
            ));
        }
        i += 1;
    }
    out
}

/// Relies on rayon's indexed parallel map: `par_iter().map(..)` over
/// the chunk bounds, then `collect_into_vec`, applies the closure to
/// every element and stores the results in input order (rayon's
/// documentation collects `0..5` into `[0, 1, 2, 3, 4]`). The closure
/// only calls the verified [`process_chunk`].
#[verifier::external_body]
fn process_chunks_in_parallel(rows: &Vec<Row>, bounds: &Vec<(usize, usize)>) -> (r: Vec<
    Vec<Record>,
>)
    requires
        forall|i: int|
            0 <= i < bounds@.len() ==> (#[trigger] bounds@[i]).0 <= bounds@[i].1 <= rows@.len(),
    ensures
        r@.len() == bounds@.len(),
        forall|i: int|
            0 <= i < bounds@.len() ==> #[trigger] r@[i].deep_view() == spec_records_of(
                rows.deep_view(),
                bounds@[i].0 as int,
                bounds@[i].1 as int,
            ),
{
    let mut out: Vec<Vec<Record>> = Vec::new();
    bounds.par_iter().map(|b: &(usize, usize)| process_chunk(rows, b.0, b.1)).collect_into_vec(
        &mut out,
    );
    out
}

/// `bounds` splits `0..total` into contiguous non-empty chunks: each
/// chunk begins where the one before it ended, the first begins at 0,
/// the last ends at `total`.
pub open spec fn chunks_cover(bounds: Seq<(usize, usize)>, total: int) -> bool
    decreases bounds.len(),
{
    if bounds.len() == 0 {
        total == 0
    } else {
        let last = bounds[bounds.len() - 1];
        &&& last.1 == total
        &&& last.0 < last.1
        &&& chunks_cover(bounds.drop_last(), last.0 as int)
    }
}

/// Every chunk of a covering partition lies inside `0..total`.
proof fn lemma_chunks_cover_bounds(bounds: Seq<(usize, usize)>, total: int)
    requires
        chunks_cover(bounds, total),
    ensures
        total >= 0,
        forall|i: int| 0 <= i < bounds.len() ==> #[trigger] bounds[i].0 < bounds[i].1 <= total,
    decreases bounds.len(),
{
    if bounds.len() > 0 {
        let last = bounds[bounds.len() - 1];
        lemma_chunks_cover_bounds(bounds.drop_last(), last.0 as int);
        assert forall|i: int| 0 <= i < bounds.len() implies #[trigger] bounds[i].0 < bounds[i].1
            <= total by {
            if i < bounds.len() - 1 {
                assert(bounds.drop_last()[i] == bounds[i]);
            }
        }
    }
}

/// The concatenation, chunk by chunk in order, of the records of each
/// chunk of rows.
pub open spec fn spec_concat_chunks(rows: Seq<RowModel>, bounds: Seq<(usize, usize)>) -> Seq<
    RecordModel,
>
    decreases bounds.len(),
{
    if bounds.len() == 0 {
        Seq::empty()
    } else {
        let last = bounds[bounds.len() - 1];
        spec_concat_chunks(rows, bounds.drop_last()) + spec_records_of(
            rows,
            last.0 as int,
            last.1 as int,
        )
    }
}

/// The partition law: a chunking that covers `0..hi` yields, chunk by
/// chunk, exactly the records of the first `hi` rows — no row dropped,
/// none duplicated across chunks — whatever the chunk sizes, so the
/// merged index does not depend on how many workers were used.
pub proof fn lemma_chunks_cover_exactly(rows: Seq<RowModel>, bounds: Seq<(usize, usize)>, hi: int)
    requires
        chunks_cover(bounds, hi),
        hi <= rows.len(),
    ensures
        spec_concat_chunks(rows, bounds) == spec_records_of(rows, 0, hi),
    decreases bounds.len(),
{
    if bounds.len() == 0 {
        assert(spec_concat_chunks(rows, bounds) =~= spec_records_of(rows, 0, hi));
    } else {
        let last = bounds[bounds.len() - 1];
        lemma_chunks_cover_bounds(bounds.drop_last(), last.0 as int);
        lemma_chunks_cover_exactly(rows, bounds.drop_last(), last.0 as int);
        assert(spec_records_of(rows, 0, last.0 as int) + spec_records_of(
            rows,
            last.0 as int,
            hi,
        ) =~= spec_records_of(rows, 0, hi));
    }
}

/// Splits `0..total` into chunks of `chunk_size` rows each, the final
/// chunk absorbing any remainder.
fn chunk_bounds(total: usize, chunk_size: usize) -> (r: Vec<(usize, usize)>)
    requires
        chunk_size >= 1,
    ensures
        chunks_cover(r@, total as int),
{
    let mut bounds: Vec<(usize, usize)> = Vec::new();
    let mut start: usize = 0;
    while start < total
        invariant
            start <= total,
            chunk_size >= 1,
            chunks_cover(bounds@, start as int),
        decreases total - start,
    {
        let remaining = total - start;
        let end = if chunk_size >= remaining {
            total
        } else {
            let next = start + chunk_size;
            if total - next < chunk_size {
                total
            } else {
                next
            }
        };
        let ghost prev = bounds@;
        bounds.push((start, end));
        proof {
            assert(bounds@.drop_last() =~= prev);
        }
        start = end;
    }
    bounds
}

/// Is a record with `r`'s (class, title, text) tuple present?
pub open spec fn spec_has_key(s: Seq<RecordModel>, r: RecordModel) -> bool {
    exists|i: int| 0 <= i < s.len() && same_key(s[i], r)
}

/// The deduplicated form of a record sequence: the first occurrence of
/// each (class, title, text) tuple is kept, in order of first
/// appearance.
pub open spec fn spec_dedup(s: Seq<RecordModel>) -> Seq<RecordModel>
    decreases s.len(),
{
    if s.len() == 0 {
        Seq::empty()
    } else {
        let rest = spec_dedup(s.drop_last());
        if spec_has_key(rest, s.last()) {
            rest
        } else {
            rest.push(s.last())
        }
    }
}

/// What one indexing pass over `rows` returns: each row compressed and
/// packaged, duplicates collapsed.
pub open spec fn spec_build_index(rows: Seq<RowModel>) -> Seq<RecordModel> {
    spec_dedup(spec_records_of(rows, 0, rows.len() as int))
}

/// Deduplication keeps exactly the keys that were present.
pub proof fn lemma_dedup_same_keys(s: Seq<RecordModel>, r: RecordModel)
    ensures
        spec_has_key(spec_dedup(s), r) == spec_has_key(s, r),
    decreases s.len(),
{
    if s.len() > 0 {
        let rest = spec_dedup(s.drop_last());
        lemma_dedup_same_keys(s.drop_last(), r);
        if spec_has_key(s, r) {
            let i = choose|i: int| 0 <= i < s.len() && same_key(s[i], r);
            if i < s.len() - 1 {
                assert(same_key(s.drop_last()[i], r));
                assert(spec_has_key(s.drop_last(), r));
                let j = choose|j: int| 0 <= j < rest.len() && same_key(rest[j], r);
                assert(same_key(spec_dedup(s)[j], r));
            } else {
                if spec_has_key(rest, s.last()) {
                    lemma_dedup_same_keys(s.drop_last(), s.last());
                    let j = choose|j: int| 0 <= j < rest.len() && same_key(rest[j], s.last());
                    assert(same_key(spec_dedup(s)[j], r));
                } else {
                    assert(same_key(spec_dedup(s)[spec_dedup(s).len() - 1], r));
                }
            }
            assert(spec_has_key(spec_dedup(s), r));
        }
        if spec_has_key(spec_dedup(s), r) {
            let i = choose|i: int|
                0 <= i < spec_dedup(s).len() && same_key(spec_dedup(s)[i], r);
            if i < rest.len() {
                assert(same_key(rest[i], r));
                assert(spec_has_key(rest, r));
                let j = choose|j: int| 0 <= j < s.drop_last().len() && same_key(
                    s.drop_last()[j],
                    r,
                );
                assert(same_key(s[j], r));
            } else {
                assert(same_key(s[s.len() - 1], r));
            }
            assert(spec_has_key(s, r));
        }
    }
}

/// The corpus-is-a-set invariant: after deduplication no two records
/// share a (class, title, text) tuple.
pub proof fn lemma_dedup_distinct(s: Seq<RecordModel>)
    ensures
        forall|i: int, j: int|
            0 <= i < j < spec_dedup(s).len() ==> !same_key(spec_dedup(s)[i], spec_dedup(s)[j]),
    decreases s.len(),
{
    if s.len() > 0 {
        let rest = spec_dedup(s.drop_last());
        lemma_dedup_distinct(s.drop_last());
        if !spec_has_key(rest, s.last()) {
            assert forall|i: int, j: int| 0 <= i < j < spec_dedup(s).len() implies !same_key(
                spec_dedup(s)[i],
                spec_dedup(s)[j],
            ) by {
                if j == spec_dedup(s).len() - 1 {
                    assert(!same_key(rest[i], s.last()));
                }
            }
        }
    }
}

/// Every deduplicated record is one of the original records.
pub proof fn lemma_dedup_subset(s: Seq<RecordModel>)
    ensures
        forall|i: int|
            0 <= i < spec_dedup(s).len() ==> exists|j: int|
                0 <= j < s.len() && #[trigger] spec_dedup(s)[i] == s[j],
    decreases s.len(),
{
    if s.len() > 0 {
        let rest = spec_dedup(s.drop_last());
        lemma_dedup_subset(s.drop_last());
        assert forall|i: int| 0 <= i < spec_dedup(s).len() implies exists|j: int|
            0 <= j < s.len() && #[trigger] spec_dedup(s)[i] == s[j] by {
            if i < rest.len() {
                let j = choose|j: int|
                    0 <= j < s.drop_last().len() && rest[i] == s.drop_last()[j];
                assert(spec_dedup(s)[i] == s[j]);
            } else {
                assert(spec_dedup(s)[i] == s[s.len() - 1]);
            }
        }
    }
}

/// Duplicate rows collapse: appending a record whose (class, title,
/// text) tuple is already present leaves the deduplicated corpus
/// unchanged — the corpus reflects unique tuples only.
pub proof fn lemma_duplicate_collapses(s: Seq<RecordModel>, r: RecordModel)
    requires
        spec_has_key(s, r),
    ensures
        spec_dedup(s.push(r)) == spec_dedup(s),
{
    assert(s.push(r).drop_last() =~= s);
    lemma_dedup_same_keys(s, r);
}

/// A deduplicated, compression-indexed set of records built by one
/// indexing pass over one input source. Read-only after construction.
pub struct Corpus {
    pub records: Vec<Record>,
}

impl View for Corpus {
    type V = Seq<RecordModel>;

    open spec fn view(&self) -> Seq<RecordModel> {
        self.records.deep_view()
    }
}

impl Corpus {
    /// The corpus invariant: records are pairwise distinct under the
    /// full-tuple key, and each cached size is the compressed size of
    /// the record's own text.
    pub open spec fn wf(&self) -> bool {
        &&& forall|i: int, j: int| 0 <= i < j < self@.len() ==> !same_key(self@[i], self@[j])
        &&& forall|i: int| 0 <= i < self@.len() ==> record_wf(#[trigger] self@[i])
    }

    /// The number of unique records.
    pub fn len(&self) -> (n: usize)
        ensures
            n == self@.len(),
    {
        self.records.len()
    }
}

/// Does the growing record list already hold `r`'s tuple?
fn records_have_key(records: &Vec<Record>, r: &Record) -> (b: bool)
    ensures
        b == spec_has_key(records.deep_view(), r@),
{
    let mut i: usize = 0;
    while i < records.len()
        invariant
            i <= records@.len(),
            forall|t: int| 0 <= t < i ==> !same_key(records.deep_view()[t], r@),
        decreases records@.len() - i,
    {
        if records[i].class == r.class && records[i].title == r.title && records[i].text
            == r.text {
            assert(same_key(records.deep_view()[i as int], r@));
            return true;
        }
        i += 1;
    }
    false
}

/// Builds the deduplicated, compression-indexed corpus of `rows`.
///
/// The rows are split into contiguous chunks — chunk size
/// `max(1, total / workers)`, the final chunk absorbing any remainder —
/// each chunk is compressed on its own worker with no shared mutable
/// state, and the chunk results are merged in input order, then
/// deduplicated keeping the first occurrence of each (class, title,
/// text) tuple.
///
/// The result is a function of the rows alone: `parallelism` (0 is
/// taken as 1) never shows in it, so repeated runs over the same rows
/// build the same corpus whatever the thread count.
pub fn build_index(rows: &Vec<Row>, parallelism: usize) -> (r: Corpus)
    ensures
        r@ == spec_build_index(rows.deep_view()),
        r.wf(),
{
    let total = rows.len();
    let workers = if parallelism == 0 {
        1
    } else {
        parallelism
    };
    let raw = total / workers;
    let chunk_size = if raw == 0 {
        1
    } else {
        raw
    };
    let bounds = chunk_bounds(total, chunk_size);
    proof {
        lemma_chunks_cover_bounds(bounds@, total as int);
    }
    let chunks = process_chunks_in_parallel(rows, &bounds);

    // merge the chunk results in input order
    let mut merged: Vec<Record> = Vec::new();
    let mut ci: usize = 0;
    while ci < chunks.len()
        invariant
            ci <= chunks@.len(),
            chunks@.len() == bounds@.len(),
            forall|i: int|
                0 <= i < bounds@.len() ==> #[trigger] chunks@[i].deep_view() == spec_records_of(
                    rows.deep_view(),
                    bounds@[i].0 as int,
                    bounds@[i].1 as int,
                ),
            merged.deep_view() == spec_concat_chunks(rows.deep_view(), bounds@.take(ci as int)),
        decreases chunks@.len() - ci,
    {
        let chunk_len = chunks[ci].len();
        let mut k: usize = 0;
        while k < chunk_len
            invariant
                ci < chunks@.len(),
                chunks@.len() == bounds@.len(),
                k <= chunk_len,
                chunk_len == chunks@[ci as int]@.len(),
                forall|i: int|
                    0 <= i < bounds@.len() ==> #[trigger] chunks@[i].deep_view()
                        == spec_records_of(
                        rows.deep_view(),
                        bounds@[i].0 as int,
                        bounds@[i].1 as int,
                    ),
                merged.deep_view() == spec_concat_chunks(
                    rows.deep_view(),
                    bounds@.take(ci as int),
                ) + chunks@[ci as int].deep_view().take(k as int),
            decreases chunk_len - k,
        {
            let rec = chunks[ci][k].duplicate();
            let ghost prev = merged.deep_view();
            merged.push(rec);
            proof {
                assert(merged.deep_view() =~= prev.push(rec@));
                assert(rec@ == chunks@[ci as int].deep_view()[k as int]);
                assert(merged.deep_view() =~= spec_concat_chunks(
                    rows.deep_view(),
                    bounds@.take(ci as int),
                ) + chunks@[ci as int].deep_view().take(k + 1 as int));
            }
            k += 1;
        }
        proof {
            assert(bounds@.take(ci + 1 as int).drop_last() =~= bounds@.take(ci as int));
            assert(chunks@[ci as int].deep_view().take(k as int) =~= chunks@[
                ci as int
            ].deep_view());
            assert(merged.deep_view() == spec_concat_chunks(
                rows.deep_view(),
                bounds@.take(ci + 1 as int),
            ));
        }
        ci += 1;
    }
    proof {
        assert(bounds@.take(bounds@.len() as int) =~= bounds@);
        lemma_chunks_cover_exactly(rows.deep_view(), bounds@, total as int);
    }

    // deduplicate, keeping first occurrences
    let mut records: Vec<Record> = Vec::new();
    let mut mi: usize = 0;
    while mi < merged.len()
        invariant
            mi <= merged@.len(),
            records.deep_view() == spec_dedup(merged.deep_view().take(mi as int)),
        decreases merged@.len() - mi,
    {
        let cand = merged[mi].duplicate();
        let ghost prev = records.deep_view();
        let present = records_have_key(&records, &cand);
        if !present {
            records.push(cand);
            proof {
                assert(records.deep_view() =~= prev.push(merged.deep_view()[mi as int]));
            }
        }
        proof {
            assert(merged.deep_view().take(mi + 1 as int).drop_last() =~= merged.deep_view().take(
                mi as int,
            ));
        }
        mi += 1;
    }
    proof {
        assert(merged.deep_view().take(merged@.len() as int) =~= merged.deep_view());
        let all = spec_records_of(rows.deep_view(), 0, rows.deep_view().len() as int);
        lemma_dedup_distinct(all);
        lemma_dedup_subset(all);
    }
    Corpus { records }
}

} // verus!
