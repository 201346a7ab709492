use vstd::prelude::*;

verus! {

use crate::compress::{gzip_compressed_len, gzip_len_of};
use crate::corpus::Corpus;
use crate::distance::{
    lemma_rat_le_trans, normalized_compression_distance, rat_le, rat_lt, spec_ncd, Ncd, NcdModel,
    ncd_le,
};
use crate::record::{Record, RecordModel};
use vstd::string::StringExecFns;

/// One scored train record during one test record's classification:
/// the train record's index in its corpus and its distance to the test
/// record. Scratch data, discarded once the prediction is made.
#[derive(Clone, Copy)]
pub struct DistanceSample {
    pub idx: usize,
    pub ncd: Ncd,
}

/// Mathematical model of a [`DistanceSample`].
pub ghost struct DistanceSampleModel {
    pub idx: int,
    pub ncd: NcdModel,
}

impl View for DistanceSample {
    type V = DistanceSampleModel;

    open spec fn view(&self) -> DistanceSampleModel {
        DistanceSampleModel { idx: self.idx as int, ncd: self.ncd@ }
    }
}

impl DeepView for DistanceSample {
    type V = DistanceSampleModel;

    open spec fn deep_view(&self) -> DistanceSampleModel {
        self.view()
    }
}

/// The fixed, total order under which neighbours are ranked: ascending
/// distance, ties broken by ascending train index. The tie-break makes
/// the ranking — and with it the whole classification — deterministic.
pub open spec fn sample_le(a: DistanceSampleModel, b: DistanceSampleModel) -> bool {
    rat_lt(a.ncd, b.ncd) || (a.ncd.num * b.ncd.den == b.ncd.num * a.ncd.den && a.idx <= b.idx)
}

/// Compares two samples under the ranking order.
fn sample_le_exec(a: &DistanceSample, b: &DistanceSample) -> (r: bool)
    ensures
        r == sample_le(a@, b@),
{
    let ab = ncd_le(&a.ncd, &b.ncd);
    let ba = ncd_le(&b.ncd, &a.ncd);
    if ab && !ba {
        true
    } else if ab && ba {
        a.idx <= b.idx
    } else {
        false
    }
}

/// The ranking order is total: any two samples compare one way or the
/// other.
proof fn lemma_sample_le_total(a: DistanceSampleModel, b: DistanceSampleModel)
    ensures
        sample_le(a, b) || sample_le(b, a),
{
}

/// The ranking order is transitive (denominators must be positive for
/// the cross-multiplied comparisons to compose).
proof fn lemma_sample_le_trans(a: DistanceSampleModel, b: DistanceSampleModel, c: DistanceSampleModel)
    requires
        a.ncd.den >= 1,
        b.ncd.den >= 1,
        c.ncd.den >= 1,
        sample_le(a, b),
        sample_le(b, c),
    ensures
        sample_le(a, c),
{
    lemma_rat_le_trans(a.ncd, b.ncd, c.ncd);
}

/// Insertion of a sample into an already ranked sequence, before the
/// first element it does not come after.
pub open spec fn spec_insert(e: DistanceSampleModel, s: Seq<DistanceSampleModel>) -> Seq<
    DistanceSampleModel,
>
    decreases s.len(),
{
    if s.len() == 0 {
        seq![e]
    } else if sample_le(e, s[0]) {
        seq![e] + s
    } else {
        seq![s[0]] + spec_insert(e, s.subrange(1, s.len() as int))
    }
}

/// The ranking of a sample sequence: insertion sort, one sample at a
/// time, left to right.
pub open spec fn spec_sort(s: Seq<DistanceSampleModel>) -> Seq<DistanceSampleModel>
    decreases s.len(),
{
    if s.len() == 0 {
        Seq::empty()
    } else {
        spec_insert(s.last(), spec_sort(s.drop_last()))
    }
}

/// Inserting at the first position whose element `e` comes before is
/// exactly [`spec_insert`].
proof fn lemma_insert_at(e: DistanceSampleModel, s: Seq<DistanceSampleModel>, j: int)
    requires
        0 <= j <= s.len(),
        forall|t: int| 0 <= t < j ==> !sample_le(e, s[t]),
        j < s.len() ==> sample_le(e, s[j]),
    ensures
        spec_insert(e, s) == s.insert(j, e),
    decreases j,
{
    if s.len() == 0 {
        assert(spec_insert(e, s) =~= s.insert(j, e));
    } else if j == 0 {
        assert(spec_insert(e, s) =~= s.insert(0, e));
    } else {
        let s1 = s.subrange(1, s.len() as int);
        lemma_insert_at(e, s1, j - 1);
        assert(seq![s[0]] + spec_insert(e, s1) =~= s.insert(j, e));
    }
}

/// Insertion keeps any property that every element and the new sample
/// satisfy.
proof fn lemma_insert_preserves(
    e: DistanceSampleModel,
    s: Seq<DistanceSampleModel>,
    p: spec_fn(DistanceSampleModel) -> bool,
)
    requires
        p(e),
        forall|i: int| 0 <= i < s.len() ==> p(#[trigger] s[i]),
    ensures
        spec_insert(e, s).len() == s.len() + 1,
        forall|i: int| 0 <= i < spec_insert(e, s).len() ==> p(#[trigger] spec_insert(e, s)[i]),
    decreases s.len(),
{
    if s.len() == 0 {
    } else if sample_le(e, s[0]) {
    } else {
        let s1 = s.subrange(1, s.len() as int);
        lemma_insert_preserves(e, s1, p);
    }
}

/// Ranking keeps any property that every element satisfies.
proof fn lemma_sort_preserves(s: Seq<DistanceSampleModel>, p: spec_fn(DistanceSampleModel) -> bool)
    requires
        forall|i: int| 0 <= i < s.len() ==> p(#[trigger] s[i]),
    ensures
        spec_sort(s).len() == s.len(),
        forall|i: int| 0 <= i < spec_sort(s).len() ==> p(#[trigger] spec_sort(s)[i]),
    decreases s.len(),
{
    if s.len() > 0 {
        lemma_sort_preserves(s.drop_last(), p);
        lemma_insert_preserves(s.last(), spec_sort(s.drop_last()), p);
    }
}

/// The first position in `ranked` whose element `e` comes before.
fn find_position(ranked: &Vec<DistanceSample>, e: &DistanceSample) -> (j: usize)
    ensures
        j <= ranked@.len(),
        forall|t: int| 0 <= t < j ==> !sample_le(e@, ranked.deep_view()[t]),
        j < ranked@.len() ==> sample_le(e@, ranked.deep_view()[j as int]),
{
    let mut j: usize = 0;
    while j < ranked.len()
        invariant
            j <= ranked@.len(),
            forall|t: int| 0 <= t < j ==> !sample_le(e@, ranked.deep_view()[t]),
        decreases ranked@.len() - j,
    {
        if sample_le_exec(e, &ranked[j]) {
            return j;
        }
        j += 1;
    }
    j
}

/// Ranks the samples by insertion sort under the fixed order.
fn sort_samples(input: &Vec<DistanceSample>) -> (r: Vec<DistanceSample>)
    ensures
        r.deep_view() == spec_sort(input.deep_view()),
{
    let mut out: Vec<DistanceSample> = Vec::new();
    let mut i: usize = 0;
    proof {
        assert(input.deep_view().take(0) =~= Seq::<DistanceSampleModel>::empty());
    }
    while i < input.len()
        invariant
            i <= input@.len(),
            out.deep_view() == spec_sort(input.deep_view().take(i as int)),
        decreases input@.len() - i,
    {
        let e = input[i];
        let j = find_position(&out, &e);
        let ghost prev = out.deep_view();
        out.insert(j, e);
        proof {
            lemma_insert_at(e@, prev, j as int);
            assert(out.deep_view() =~= prev.insert(j as int, e@));
            assert(input.deep_view().take(i + 1 as int).drop_last() =~= input.deep_view().take(
                i as int,
            ));
            assert(input.deep_view().take(i + 1 as int).last() == e@);
        }
        i += 1;
    }
    proof {
        assert(input.deep_view().take(input@.len() as int) =~= input.deep_view());
    }
    out
}

/// The distance samples of one test record against the whole train
/// corpus: sample `i` scores train record `i` from the two cached
/// standalone sizes and a fresh compression of the concatenation —
/// test text first, the fixed convention, since the compressor is not
/// strictly order-invariant.
pub open spec fn spec_samples(t: RecordModel, train: Seq<RecordModel>) -> Seq<
    DistanceSampleModel,
> {
    Seq::new(
        train.len(),
        |i: int|
            DistanceSampleModel {
                idx: i,
                ncd: spec_ncd(
                    t.compressed_len,
                    train[i].compressed_len,
                    gzip_len_of(t.text + train[i].text),
                ),
            },
    )
}

/// The classes that a sample sequence points at, in sample order.
pub open spec fn spec_classes_of(train: Seq<RecordModel>, samples: Seq<DistanceSampleModel>) -> Seq<
    Seq<char>,
> {
    Seq::new(samples.len(), |i: int| train[samples[i].idx].class)
}

/// The classes of the `k` nearest train records, nearest first; a `k`
/// beyond the corpus size clamps to the whole corpus.
pub open spec fn spec_top_classes(t: RecordModel, train: Seq<RecordModel>, k: int) -> Seq<
    Seq<char>,
> {
    let sorted = spec_sort(spec_samples(t, train));
    let kk = if k < sorted.len() {
        k
    } else {
        sorted.len() as int
    };
    spec_classes_of(train, sorted.take(kk))
}

/// How many entries of the vote name class `c`.
pub open spec fn spec_count(s: Seq<Seq<char>>, c: Seq<char>) -> nat
    decreases s.len(),
{
    if s.len() == 0 {
        0
    } else {
        spec_count(s.drop_last(), c) + if s.last() == c {
            1nat
        } else {
            0
        }
    }
}

/// The position of the winning entry, scanning from `i` with `best` so
/// far: a strictly higher count displaces the incumbent, so a count
/// tie goes to the earlier — nearer — entry.
pub open spec fn spec_best_from(s: Seq<Seq<char>>, i: int, best: int) -> int
    decreases s.len() - i,
{
    if i < 0 || i >= s.len() {
        best
    } else if spec_count(s, s[i]) > spec_count(s, s[best]) {
        spec_best_from(s, i + 1, i)
    } else {
        spec_best_from(s, i + 1, best)
    }
}

/// The majority class of a non-empty vote.
pub open spec fn spec_winner(s: Seq<Seq<char>>) -> Seq<char> {
    s[spec_best_from(s, 1, 0)]
}

/// The class predicted for one test record: the majority class among
/// its `k` nearest train records.
pub open spec fn spec_predict(t: RecordModel, train: Seq<RecordModel>, k: int) -> Seq<char> {
    spec_winner(spec_top_classes(t, train, k))
}

/// One classified test record: the record and its predicted class.
pub struct Prediction {
    pub record: Record,
    pub class: String,
}

/// Mathematical model of a [`Prediction`].
pub ghost struct PredictionModel {
    pub record: RecordModel,
    pub class: Seq<char>,
}

impl View for Prediction {
    type V = PredictionModel;

    open spec fn view(&self) -> PredictionModel {
        PredictionModel { record: self.record@, class: self.class@ }
    }
}

impl DeepView for Prediction {
    type V = PredictionModel;

    open spec fn deep_view(&self) -> PredictionModel {
        self.view()
    }
}

/// The classification of a whole test corpus: one prediction per test
/// record, in test corpus order.
pub open spec fn spec_classify(test: Seq<RecordModel>, train: Seq<RecordModel>, k: int) -> Seq<
    PredictionModel,
> {
    Seq::new(
        test.len(),
        |i: int| PredictionModel { record: test[i], class: spec_predict(test[i], train, k) },
    )
}

/// The normalized compression distance between two records, from the
/// two cached standalone sizes and a fresh compression of the
/// concatenation, `a`'s text first.
pub fn ncd_between(a: &Record, b: &Record) -> (r: Ncd)
    ensures
        r@ == spec_ncd(a@.compressed_len, b@.compressed_len, gzip_len_of(a@.text + b@.text)),
        r.den >= 1,
{
    let combined = a.text.clone().concat(b.text.as_str());
    let cxy = gzip_compressed_len(combined.as_str());
    normalized_compression_distance(a.compressed_len, b.compressed_len, cxy)
}

/// Scores one test record against every train record.
fn collect_samples(t: &Record, train: &Corpus) -> (r: Vec<DistanceSample>)
    ensures
        r.deep_view() == spec_samples(t@, train@),
{
    let mut samples: Vec<DistanceSample> = Vec::new();
    let mut j: usize = 0;
    proof {
        assert(samples.deep_view() =~= spec_samples(t@, train@).take(0));
    }
    while j < train.records.len()
        invariant
            j <= train@.len(),
            train@.len() == train.records@.len(),
            samples.deep_view() == spec_samples(t@, train@).take(j as int),
        decreases train@.len() - j,
    {
        let tr = &train.records[j];
        let combined = t.text.clone().concat(tr.text.as_str());
        let cxy = gzip_compressed_len(combined.as_str());
        let d = normalized_compression_distance(t.compressed_len, tr.compressed_len, cxy);
        let smp = DistanceSample { idx: j, ncd: d };
        let ghost prev = samples.deep_view();
        samples.push(smp);
        proof {
            assert(samples.deep_view() =~= prev.push(smp@));
            assert(combined@ == t@.text + train@[j as int].text);
            assert(smp@ == spec_samples(t@, train@)[j as int]);
            assert(samples.deep_view() =~= spec_samples(t@, train@).take(j + 1 as int));
        }
        j += 1;
    }
    proof {
        assert(spec_samples(t@, train@).take(train@.len() as int) =~= spec_samples(t@, train@));
    }
    samples
}

/// Counts how many entries of the vote name the same class as entry
/// `a`.
fn count_class(classes: &Vec<String>, a: usize) -> (c: usize)
    requires
        a < classes@.len(),
    ensures
        c as nat == spec_count(classes.deep_view(), classes.deep_view()[a as int]),
{
    let mut c: usize = 0;
    let mut b: usize = 0;
    proof {
        assert(classes.deep_view().take(0) =~= Seq::<Seq<char>>::empty());
    }
    while b < classes.len()
        invariant
            a < classes@.len(),
            b <= classes@.len(),
            c <= b,
            c as nat == spec_count(
                classes.deep_view().take(b as int),
                classes.deep_view()[a as int],
            ),
        decreases classes@.len() - b,
    {
        proof {
            assert(classes.deep_view().take(b + 1 as int).drop_last() =~= classes.deep_view().take(
                b as int,
            ));
        }
        if classes[b] == classes[a] {
            c += 1;
        }
        b += 1;
    }
    proof {
        assert(classes.deep_view().take(classes@.len() as int) =~= classes.deep_view());
    }
    c
}

/// The majority vote over the ranked class list: the highest count
/// wins, and a count tie goes to the earlier — nearer — entry.
fn majority_class(classes: &Vec<String>) -> (r: String)
    requires
        classes@.len() >= 1,
    ensures
        r@ == spec_winner(classes.deep_view()),
{
    let mut best: usize = 0;
    let mut pos: usize = 1;
    while pos < classes.len()
        invariant
            1 <= pos <= classes@.len() || classes@.len() == 1,
            best < classes@.len(),
            spec_best_from(classes.deep_view(), pos as int, best as int) == spec_best_from(
                classes.deep_view(),
                1,
                0,
            ),
        decreases classes@.len() - pos,
    {
        let ca = count_class(classes, pos);
        let cb = count_class(classes, best);
        if ca > cb {
            best = pos;
        }
        pos += 1;
    }
    classes[best].clone()
}

/// Classifies every test record against the train corpus.
///
/// For each test record, every train record is scored by normalized
/// compression distance — the concatenation is compressed test text
/// first — and the records are ranked by ascending distance with ties
/// broken by ascending train index. The `k` nearest vote (`k` clamps
/// to the train corpus size) and the majority class wins; a count tie
/// goes to the class of the nearer neighbour. Predictions come back in
/// test corpus order: an empty test corpus yields an empty result.
///
/// The result is a function of the two corpora and `k` alone, so
/// repeated runs over the same inputs return the same predictions.
/// A train corpus must be non-empty: there is no majority class in an
/// empty vote.
pub fn classify(test: &Corpus, train: &Corpus, k: usize) -> (r: Vec<Prediction>)
    requires
        k >= 1,
        train@.len() >= 1,
    ensures
        r.deep_view() == spec_classify(test@, train@, k as int),
{
    let mut predictions: Vec<Prediction> = Vec::new();
    let mut i: usize = 0;
    proof {
        assert(predictions.deep_view() =~= spec_classify(test@, train@, k as int).take(0));
    }
    while i < test.records.len()
        invariant
            k >= 1,
            train@.len() >= 1,
            i <= test@.len(),
            test@.len() == test.records@.len(),
            train@.len() == train.records@.len(),
            predictions.deep_view() == spec_classify(test@, train@, k as int).take(i as int),
        decreases test@.len() - i,
    {
        let t = &test.records[i];
        let samples = collect_samples(t, train);
        let sorted = sort_samples(&samples);
        let ghost n = train@.len() as int;
        proof {
            assert forall|x: int| 0 <= x < samples.deep_view().len() implies 0 <= (
            #[trigger] samples.deep_view()[x]).idx < n by {}
            lemma_sort_preserves(
                samples.deep_view(),
                |s: DistanceSampleModel| 0 <= s.idx < n,
            );
        }
        let kk = if k < sorted.len() {
            k
        } else {
            sorted.len()
        };
        let ghost sorted_model = spec_sort(spec_samples(t@, train@));
        let mut classes: Vec<String> = Vec::new();
        let mut p: usize = 0;
        proof {
            assert(classes.deep_view() =~= spec_classes_of(train@, sorted_model.take(0)));
        }
        while p < kk
            invariant
                p <= kk,
                kk <= sorted@.len(),
                train@.len() == train.records@.len(),
                sorted.deep_view() == sorted_model,
                sorted_model.len() == sorted@.len(),
                forall|x: int|
                    0 <= x < sorted_model.len() ==> 0 <= (#[trigger] sorted_model[x]).idx
                        < train@.len(),
                classes.deep_view() == spec_classes_of(train@, sorted_model.take(p as int)),
            decreases kk - p,
        {
            let idx = sorted[p].idx;
            proof {
                assert(sorted.deep_view()[p as int] == sorted_model[p as int]);
                assert(0 <= sorted_model[p as int].idx < train@.len());
                assert(idx as int == sorted_model[p as int].idx);
            }
            let ghost prevc = classes.deep_view();
            classes.push(train.records[idx].class.clone());
            proof {
                assert(classes.deep_view() =~= prevc.push(train@[idx as int].class));
                assert(sorted_model.take(p + 1 as int)[p as int] == sorted_model[p as int]);
                assert(classes.deep_view() =~= spec_classes_of(
                    train@,
                    sorted_model.take(p + 1 as int),
                ));
            }
            p += 1;
        }
        proof {
            assert(p == kk);
            assert(classes.deep_view() == spec_classes_of(train@, sorted_model.take(kk as int)));
            assert(kk as int == (if (k as int) < sorted_model.len() {
                k as int
            } else {
                sorted_model.len() as int
            }));
            assert(spec_top_classes(t@, train@, k as int) == spec_classes_of(
                train@,
                sorted_model.take(kk as int),
            ));
        }
        let predicted = majority_class(&classes);
        proof {
            assert(predicted@ == spec_predict(t@, train@, k as int));
            assert(t@ == test@[i as int]);
        }
        let ghost prevp = predictions.deep_view();
        let entry = Prediction { record: t.duplicate(), class: predicted };
        proof {
            assert(entry@ == spec_classify(test@, train@, k as int)[i as int]);
        }
        predictions.push(entry);
        proof {
            assert(predictions.deep_view() =~= prevp.push(entry@));
            assert(predictions.deep_view() =~= spec_classify(test@, train@, k as int).take(
                i + 1 as int,
            ));
        }
        i += 1;
    }
    proof {
        assert(spec_classify(test@, train@, k as int).take(test@.len() as int) =~= spec_classify(
            test@,
            train@,
            k as int,
        ));
    }
    predictions
}

/// A sample sequence is ranked when it ascends under the fixed order:
/// by distance, ties by train index.
pub open spec fn spec_ranked(s: Seq<DistanceSampleModel>) -> bool {
    forall|i: int, j: int| 0 <= i <= j < s.len() ==> sample_le(#[trigger] s[i], #[trigger] s[j])
}

/// Insertion keeps a sequence ranked.
proof fn lemma_insert_ranked(e: DistanceSampleModel, s: Seq<DistanceSampleModel>)
    requires
        e.ncd.den >= 1,
        forall|i: int| 0 <= i < s.len() ==> (#[trigger] s[i]).ncd.den >= 1,
        spec_ranked(s),
    ensures
        spec_ranked(spec_insert(e, s)),
    decreases s.len(),
{
    let r = spec_insert(e, s);
    if s.len() == 0 {
        assert(spec_ranked(r));
    } else if sample_le(e, s[0]) {
        assert forall|i: int, j: int| 0 <= i <= j < r.len() implies sample_le(r[i], r[j]) by {
            if i == 0 && j > 0 {
                lemma_sample_le_trans(e, s[0], s[j - 1]);
            }
        }
    } else {
        let s1 = s.subrange(1, s.len() as int);
        lemma_sample_le_total(e, s[0]);
        lemma_insert_ranked(e, s1);
        lemma_insert_preserves(e, s1, |x: DistanceSampleModel| sample_le(s[0], x));
        assert forall|i: int, j: int| 0 <= i <= j < r.len() implies sample_le(r[i], r[j]) by {
            if i == 0 && j > 0 {
                assert(r[j] == spec_insert(e, s1)[j - 1]);
                assert(sample_le(s[0], spec_insert(e, s1)[j - 1]));
            } else if i > 0 {
                assert(r[i] == spec_insert(e, s1)[i - 1]);
                assert(r[j] == spec_insert(e, s1)[j - 1]);
            }
        }
    }
}

/// The classifier's ranking law: the sample sequence that
/// [`spec_sort`] returns ascends under the fixed order — by distance,
/// ties by train index — so taking its first `k` entries takes the
/// `k` nearest train records.
pub proof fn lemma_sort_ranked(s: Seq<DistanceSampleModel>)
    requires
        forall|i: int| 0 <= i < s.len() ==> (#[trigger] s[i]).ncd.den >= 1,
    ensures
        spec_ranked(spec_sort(s)),
    decreases s.len(),
{
    if s.len() > 0 {
        let dens = |x: DistanceSampleModel| x.ncd.den >= 1;
        lemma_sort_ranked(s.drop_last());
        lemma_sort_preserves(s.drop_last(), dens);
        lemma_insert_ranked(s.last(), spec_sort(s.drop_last()));
    }
}

/// Insertion adds exactly the new sample to the sequence's contents.
proof fn lemma_insert_multiset(e: DistanceSampleModel, s: Seq<DistanceSampleModel>)
    ensures
        spec_insert(e, s).to_multiset() == s.to_multiset().insert(e),
    decreases s.len(),
{
    broadcast use vstd::seq_lib::group_to_multiset_ensures;
    broadcast use vstd::seq_lib::lemma_multiset_commutative;

    if s.len() == 0 {
        assert(seq![e] =~= Seq::<DistanceSampleModel>::empty().push(e));
    } else if sample_le(e, s[0]) {
        assert(seq![e] + s =~= (Seq::<DistanceSampleModel>::empty().push(e)) + s);
        assert(((Seq::<DistanceSampleModel>::empty().push(e)) + s).to_multiset()
            =~= s.to_multiset().insert(e));
    } else {
        let s1 = s.subrange(1, s.len() as int);
        lemma_insert_multiset(e, s1);
        assert(s =~= seq![s[0]] + s1);
        assert(seq![s[0]] =~= Seq::<DistanceSampleModel>::empty().push(s[0]));
        assert((seq![s[0]] + spec_insert(e, s1)).to_multiset() =~= s.to_multiset().insert(e));
    }
}

/// The classifier's permutation law: ranking rearranges the samples
/// and nothing else — the ranked sequence holds exactly the same
/// scored train records as the unranked one.
pub proof fn lemma_sort_permutes(s: Seq<DistanceSampleModel>)
    ensures
        spec_sort(s).to_multiset() == s.to_multiset(),
    decreases s.len(),
{
    broadcast use vstd::seq_lib::group_to_multiset_ensures;

    if s.len() > 0 {
        lemma_sort_permutes(s.drop_last());
        lemma_insert_multiset(s.last(), spec_sort(s.drop_last()));
        assert(s =~= s.drop_last().push(s.last()));
    }
}

/// The head of the ranking comes no later, under the ranking order,
/// than any sample.
proof fn lemma_sort_min(s: Seq<DistanceSampleModel>)
    requires
        s.len() >= 1,
        forall|i: int| 0 <= i < s.len() ==> (#[trigger] s[i]).ncd.den >= 1,
    ensures
        spec_sort(s).len() == s.len(),
        forall|j: int| 0 <= j < s.len() ==> sample_le(spec_sort(s)[0], #[trigger] s[j]),
    decreases s.len(),
{
    let ghost dens = |x: DistanceSampleModel| x.ncd.den >= 1;
    lemma_sort_preserves(s, dens);
    let e = s.last();
    if s.len() == 1 {
        assert(s.drop_last().len() == 0);
        assert(spec_sort(s.drop_last()) == Seq::<DistanceSampleModel>::empty());
        assert(spec_sort(s) == spec_insert(e, Seq::<DistanceSampleModel>::empty()));
        assert(spec_sort(s)[0] == e);
        assert(sample_le(e, e));
    } else {
        let rest = spec_sort(s.drop_last());
        lemma_sort_min(s.drop_last());
        lemma_sort_preserves(s.drop_last(), dens);
        if sample_le(e, rest[0]) {
            assert(spec_sort(s)[0] == e);
            assert forall|j: int| 0 <= j < s.len() implies sample_le(spec_sort(s)[0], s[j]) by {
                if j < s.len() - 1 {
                    assert(sample_le(rest[0], s.drop_last()[j]));
                    lemma_sample_le_trans(e, rest[0], s[j]);
                } else {
                    assert(sample_le(e, e));
                }
            }
        } else {
            lemma_sample_le_total(e, rest[0]);
            assert(spec_sort(s)[0] == rest[0]);
            assert forall|j: int| 0 <= j < s.len() implies sample_le(spec_sort(s)[0], s[j]) by {
                if j < s.len() - 1 {
                    assert(sample_le(rest[0], s.drop_last()[j]));
                } else {
                    assert(sample_le(rest[0], e));
                }
            }
        }
    }
}

/// With `k` = 1 the predicted class is the class of the single
/// nearest train record: the first sample of the ranking points into
/// the train corpus, its class is the prediction, and no train record
/// is nearer (ties resolved by the lowest train index).
pub proof fn lemma_k1_nearest(t: RecordModel, train: Seq<RecordModel>)
    requires
        train.len() >= 1,
    ensures
        ({
            let samples = spec_samples(t, train);
            let first = spec_sort(samples)[0];
            &&& 0 <= first.idx < train.len()
            &&& spec_predict(t, train, 1) == train[first.idx].class
            &&& forall|j: int|
                0 <= j < train.len() ==> rat_le(first.ncd, (#[trigger] samples[j]).ncd)
        }),
{
    let samples = spec_samples(t, train);
    let sorted = spec_sort(samples);
    let first = sorted[0];
    let ghost n = train.len() as int;
    assert forall|i: int| 0 <= i < samples.len() implies (#[trigger] samples[i]).ncd.den
        >= 1 by {}
    lemma_sort_min(samples);
    lemma_sort_preserves(samples, |x: DistanceSampleModel| 0 <= x.idx < n);
    assert forall|j: int| 0 <= j < train.len() implies rat_le(
        first.ncd,
        (#[trigger] samples[j]).ncd,
    ) by {
        assert(sample_le(first, samples[j]));
    }
    let top = spec_top_classes(t, train, 1);
    assert(top =~= seq![train[first.idx].class]);
    assert(spec_best_from(top, 1, 0) == 0);
    assert(spec_predict(t, train, 1) == train[first.idx].class);
}

/// Determinism of the whole pipeline: the specified results of
/// indexing and classification are functions of the rows, the corpora
/// and `k` alone — [`crate::corpus::spec_build_index`] does not see
/// the parallelism degree and [`spec_classify`] has no other input —
/// so repeated runs over equal inputs yield equal predictions.
pub proof fn lemma_classification_deterministic(
    test_a: Seq<RecordModel>,
    train_a: Seq<RecordModel>,
    k_a: int,
    test_b: Seq<RecordModel>,
    train_b: Seq<RecordModel>,
    k_b: int,
)
    requires
        test_a == test_b,
        train_a == train_b,
        k_a == k_b,
    ensures
        spec_classify(test_a, train_a, k_a) == spec_classify(test_b, train_b, k_b),
{
}

} // verus!
