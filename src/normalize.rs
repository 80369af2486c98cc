use vstd::prelude::*;

use crate::corpus::{Corpus, corpus_rows};
use crate::lemmas::{class_total, lemma_class_total_update};
use crate::table::{
    FrequencyTable, Vocabulary, add_counts, count_in, document_counts, lemma_occurrences_bounded,
    occurrences, sum_fits, terms_of,
};

verus! {

/// The vocabulary `v` extended by the terms of `doc` that it lacks, in order of first
/// appearance.
pub open spec fn extend_vocabulary(v: Seq<Seq<char>>, doc: Seq<Seq<char>>) -> Seq<Seq<char>>
    decreases doc.len(),
{
    if doc.len() == 0 {
        v
    } else {
        let w = extend_vocabulary(v, doc.drop_last());
        if w.contains(doc.last()) {
            w
        } else {
            w.push(doc.last())
        }
    }
}

/// Gives every term of `document` that `dictionary` lacks the next free index, in the
/// order in which the terms first appear. Known terms keep their index.
pub fn build_dictionary(dictionary: &mut Vocabulary, document: &Vec<String>)
    requires
        old(dictionary).wf(),
    ensures
        final(dictionary).wf(),
        final(dictionary)@ == extend_vocabulary(old(dictionary)@, terms_of(document@)),
{
    let ghost doc = terms_of(document@);
    let mut i: usize = 0;
    while i < document.len()
        invariant
            i <= document@.len(),
            doc == terms_of(document@),
            dictionary.wf(),
            dictionary@ == extend_vocabulary(old(dictionary)@, doc.take(i as int)),
        decreases document@.len() - i,
    {
        proof {
            assert(doc.take(i + 1).drop_last() =~= doc.take(i as int));
            assert(doc.take(i + 1).last() == document@[i as int]@);
        }
        match dictionary.index_of(&document[i]) {
            Some(_) => {},
            None => {
                dictionary.push(&document[i]);
            },
        }
        i = i + 1;
    }
    assert(doc.take(i as int) =~= doc);
}

proof fn lemma_occurrences_prefix(doc: Seq<Seq<char>>, i: int, t: Seq<char>)
    requires
        0 <= i <= doc.len(),
    ensures
        occurrences(doc.take(i), t) <= occurrences(doc, t),
    decreases doc.len() - i,
{
    if i < doc.len() {
        lemma_occurrences_prefix(doc, i + 1, t);
        assert(doc.take(i + 1).drop_last() =~= doc.take(i));
    } else {
        assert(doc.take(i) =~= doc);
    }
}

proof fn lemma_counts_step(doc: Seq<Seq<char>>, i: int)
    requires
        0 <= i < doc.len(),
    ensures
        document_counts(doc.take(i + 1)) == document_counts(doc.take(i)).insert(
            doc[i],
            count_in(document_counts(doc.take(i)), doc[i]) + 1,
        ),
{
    let a = doc.take(i);
    let b = doc.take(i + 1);
    assert(b.drop_last() =~= a);
    assert(b.last() == doc[i]);
    assert forall|t: Seq<char>| b.contains(t) <==> (a.contains(t) || t == doc[i]) by {
        if b.contains(t) && t != doc[i] {
            let j = choose|j: int| 0 <= j < b.len() && b[j] == t;
            assert(a[j] == t);
        }
        if a.contains(t) {
            let j = choose|j: int| 0 <= j < a.len() && a[j] == t;
            assert(b[j] == t);
        }
        if t == doc[i] {
            assert(b[i] == t);
        }
    }
    assert forall|t: Seq<char>| a.contains(t) implies count_in(document_counts(a), t) == occurrences(
        a,
        t,
    ) by {}
    lemma_occurrences_bounded(a, doc[i]);
    assert(document_counts(b) =~= document_counts(a).insert(
        doc[i],
        count_in(document_counts(a), doc[i]) + 1,
    ));
}

/// Counts every occurrence of each term of `document`, and adds the same counts to
/// `overall_frequency`. Returns the document's own counts. These are occurrence counts, not
/// presence: a term that appears twice in the document counts twice, here and wherever the
/// result is used as a document frequency.
pub fn build_document_frequency_overall_frequency(
    overall_frequency: &mut FrequencyTable,
    document: &Vec<String>,
) -> (r: FrequencyTable)
    requires
        old(overall_frequency).wf(),
        sum_fits(old(overall_frequency)@, document_counts(terms_of(document@))),
    ensures
        r.wf(),
        r@ == document_counts(terms_of(document@)),
        final(overall_frequency).wf(),
        final(overall_frequency)@ == add_counts(old(overall_frequency)@, r@),
{
    let ghost doc = terms_of(document@);
    let ghost start = overall_frequency@;
    let mut acc = FrequencyTable::new();
    proof {
        assert(doc.take(0) =~= Seq::<Seq<char>>::empty());
        assert(document_counts(doc.take(0)) =~= Map::<Seq<char>, nat>::empty());
        assert(add_counts(start, Map::empty()) =~= start);
    }
    let mut i: usize = 0;
    while i < document.len()
        invariant
            i <= document@.len(),
            doc == terms_of(document@),
            sum_fits(start, document_counts(doc)),
            acc.wf(),
            acc@ == document_counts(doc.take(i as int)),
            overall_frequency.wf(),
            overall_frequency@ == add_counts(start, acc@),
        decreases document@.len() - i,
    {
        let term = &document[i];
        let ghost before = acc@;
        proof {
            assert(doc[i as int] == term@);
            lemma_counts_step(doc, i as int);
            lemma_occurrences_prefix(doc, i + 1, term@);
            lemma_occurrences_bounded(doc.take(i + 1), term@);
            lemma_occurrences_bounded(doc.take(i as int), term@);
            assert(doc.take(i + 1).drop_last() =~= doc.take(i as int));
            assert(occurrences(doc.take(i + 1), term@) == occurrences(doc.take(i as int), term@) + 1);
            assert(count_in(acc@, term@) == occurrences(doc.take(i as int), term@));
            assert(count_in(overall_frequency@, term@) == count_in(start, term@) + count_in(acc@, term@));
            lemma_occurrences_bounded(doc, term@);
            assert(doc.contains(term@)) by {
                assert(doc[i as int] == term@);
            }
            assert(count_in(document_counts(doc), term@) == occurrences(doc, term@));
            assert(count_in(start, term@) + count_in(document_counts(doc), term@) <= u64::MAX);
            assert(doc.take(i + 1).contains(term@)) by {
                assert(doc.take(i + 1)[i as int] == term@);
            }
        }
        acc.add(term, 1);
        overall_frequency.add(term, 1);
        proof {
            assert(add_counts(start, acc@) =~= add_counts(start, before).insert(
                term@,
                (count_in(add_counts(start, before), term@) + 1) as nat,
            ));
        }
        i = i + 1;
    }
    proof {
        assert(doc.take(i as int) =~= doc);
    }
    acc
}

/// Why a statistic could not be computed or recorded.
#[derive(Debug, Clone, Copy, PartialEq, Eq, Structural)]
pub enum StatsError {
    /// A document's label is not among the configured class labels.
    Configuration,
    /// A ratio would divide by zero: an empty document, or a term that no document holds.
    Arithmetic,
}

/// The count mappings of a sequence of tables.
pub open spec fn table_views(tables: Seq<FrequencyTable>) -> Seq<Map<Seq<char>, nat>> {
    tables.map_values(|f: FrequencyTable| f@)
}

/// The first position of `y` in `labels`, or -1 where it is absent.
pub open spec fn label_position(labels: Seq<u8>, y: u8) -> int
    decreases labels.len(),
{
    if labels.len() == 0 {
        -1
    } else {
        let p = label_position(labels.drop_last(), y);
        if p >= 0 {
            p
        } else if labels.last() == y {
            labels.len() - 1
        } else {
            -1
        }
    }
}

/// Where a label sits: a valid position holding it, or -1 exactly when it is absent.
pub proof fn lemma_label_position(labels: Seq<u8>, y: u8)
    ensures
        -1 <= label_position(labels, y) < labels.len(),
        label_position(labels, y) >= 0 ==> labels[label_position(labels, y)] == y,
        label_position(labels, y) < 0 <==> !labels.contains(y),
    decreases labels.len(),
{
    if labels.len() > 0 {
        let init = labels.drop_last();
        lemma_label_position(init, y);
        if init.contains(y) {
            let j = choose|j: int| 0 <= j < init.len() && init[j] == y;
            assert(labels[j] == y);
        }
        if labels.contains(y) && labels.last() != y {
            let j = choose|j: int| 0 <= j < labels.len() && labels[j] == y;
            assert(init[j] == y);
        }
        if labels.last() == y {
            assert(labels[labels.len() - 1] == y);
        }
    }
}

/// Adds the counts of a document labelled `classifier` to the table of its class: the one
/// at the first position of `classifier` among `classifiers`. Fails, changing nothing, when
/// the label is not there.
pub fn build_classifier_frequency(
    classifier_frequency: &mut Vec<FrequencyTable>,
    classifiers: &Vec<u8>,
    classifier: &u8,
    document_frequency: &FrequencyTable,
) -> (r: Result<(), StatsError>)
    requires
        old(classifier_frequency)@.len() >= classifiers@.len(),
        forall|i: int| 0 <= i < old(classifier_frequency)@.len() ==> #[trigger] old(classifier_frequency)@[i].wf(),
        document_frequency.wf(),
        label_position(classifiers@, *classifier) >= 0 ==> sum_fits(
            old(classifier_frequency)@[label_position(classifiers@, *classifier)]@,
            document_frequency@,
        ),
    ensures
        final(classifier_frequency)@.len() == old(classifier_frequency)@.len(),
        forall|i: int| 0 <= i < final(classifier_frequency)@.len() ==> #[trigger] final(classifier_frequency)@[i].wf(),
        label_position(classifiers@, *classifier) < 0 ==> r == Err::<(), StatsError>(StatsError::Configuration)
            && final(classifier_frequency)@ == old(classifier_frequency)@,
        label_position(classifiers@, *classifier) >= 0 ==> r == Ok::<(), StatsError>(()) && (forall|i: int|
            0 <= i < final(classifier_frequency)@.len() ==> #[trigger] final(classifier_frequency)@[i]@ == if i
                == label_position(classifiers@, *classifier) {
                add_counts(old(classifier_frequency)@[i]@, document_frequency@)
            } else {
                old(classifier_frequency)@[i]@
            }),
        r is Ok ==> forall|t: Seq<char>|
            #[trigger] class_total(table_views(final(classifier_frequency)@), t) == class_total(
                table_views(old(classifier_frequency)@),
                t,
            ) + count_in(document_frequency@, t),
{
    let mut i: usize = 0;
    while i < classifiers.len()
        invariant
            i <= classifiers@.len(),
            label_position(classifiers@.take(i as int), *classifier) < 0,
            classifier_frequency@ == old(classifier_frequency)@,
            classifier_frequency@.len() >= classifiers@.len(),
            forall|j: int| 0 <= j < classifier_frequency@.len() ==> #[trigger] classifier_frequency@[j].wf(),
            document_frequency.wf(),
            label_position(classifiers@, *classifier) >= 0 ==> sum_fits(
                old(classifier_frequency)@[label_position(classifiers@, *classifier)]@,
                document_frequency@,
            ),
        decreases classifiers@.len() - i,
    {
        proof {
            assert(classifiers@.take(i + 1).drop_last() =~= classifiers@.take(i as int));
        }
        if classifiers[i] == *classifier {
            proof {
                assert(label_position(classifiers@.take(i + 1), *classifier) == i);
                lemma_position_extends(classifiers@, i + 1, *classifier);
            }
            let ghost before = table_views(classifier_frequency@);
            classifier_frequency[i].add_all(document_frequency);
            proof {
                let after = table_views(classifier_frequency@);
                let m = add_counts(before[i as int], document_frequency@);
                assert(after =~= before.update(i as int, m));
                assert forall|t: Seq<char>| #[trigger] class_total(after, t) == class_total(
                    before,
                    t,
                ) + count_in(document_frequency@, t) by {
                    lemma_class_total_update(before, i as int, m, t);
                }
            }
            return Ok(());
        }
        i = i + 1;
    }
    proof {
        assert(classifiers@.take(i as int) =~= classifiers@);
    }
    Err(StatsError::Configuration)
}

proof fn lemma_position_extends(labels: Seq<u8>, n: int, y: u8)
    requires
        0 <= n <= labels.len(),
        label_position(labels.take(n), y) >= 0,
    ensures
        label_position(labels, y) == label_position(labels.take(n), y),
    decreases labels.len() - n,
{
    if n < labels.len() {
        assert(labels.take(n + 1).drop_last() =~= labels.take(n));
        lemma_position_extends(labels, n + 1, y);
    } else {
        assert(labels.take(n) =~= labels);
    }
}

/// An exact quotient of two counts, left for the caller to turn into a score.
#[derive(Debug, Clone, Copy, PartialEq, Eq, Structural)]
pub struct Ratio {
    pub numerator: u64,
    pub denominator: u64,
}

/// The term frequency of `term` in row `row` of `doc`: the number of cells equal to it over
/// the row's length. An empty row has none.
pub fn tf(doc: &Corpus, row: usize, term: &String) -> (r: Result<Ratio, StatsError>)
    requires
        row < corpus_rows(*doc).len(),
    ensures
        corpus_rows(*doc)[row as int].len() == 0 ==> r == Err::<Ratio, StatsError>(StatsError::Arithmetic),
        corpus_rows(*doc)[row as int].len() > 0 ==> r == Ok::<Ratio, StatsError>(
            Ratio {
                numerator: occurrences(corpus_rows(*doc)[row as int], term@) as u64,
                denominator: corpus_rows(*doc)[row as int].len() as u64,
            },
        ),
{
    let ghost cells = corpus_rows(*doc)[row as int];
    let width = doc.ncols();
    if width == 0 {
        return Err(StatsError::Arithmetic);
    }
    let mut count: u64 = 0;
    let mut j: usize = 0;
    while j < width
        invariant
            row < corpus_rows(*doc).len(),
            cells == corpus_rows(*doc)[row as int],
            cells.len() == width,
            j <= width,
            count == occurrences(cells.take(j as int), term@),
        decreases width - j,
    {
        proof {
            assert(cells.take(j + 1).drop_last() =~= cells.take(j as int));
            lemma_occurrences_bounded(cells.take(j as int), term@);
        }
        if *doc.cell(row, j) == *term {
            count = count + 1;
        }
        j = j + 1;
    }
    proof {
        assert(cells.take(j as int) =~= cells);
    }
    Ok(Ratio { numerator: count, denominator: width as u64 })
}

/// The inverse document frequency of `term`: the number of documents (rows) of `corpus` over
/// the number that `document_frequency` records for the term. The table is read as it is
/// given: filled by `build_document_frequency_overall_frequency` it holds occurrence
/// counts, and a caller that wants presence counts caps each document's counts at one
/// first. It is undefined where the term has no recorded documents.
pub fn idf(term: &String, corpus: &Corpus, document_frequency: &FrequencyTable) -> (r: Result<
    Ratio,
    StatsError,
>)
    requires
        document_frequency.wf(),
    ensures
        count_in(document_frequency@, term@) == 0 ==> r == Err::<Ratio, StatsError>(StatsError::Arithmetic),
        count_in(document_frequency@, term@) > 0 ==> r == Ok::<Ratio, StatsError>(
            Ratio {
                numerator: corpus_rows(*corpus).len() as u64,
                denominator: count_in(document_frequency@, term@) as u64,
            },
        ),
        count_in(document_frequency@, term@) == corpus_rows(*corpus).len() && corpus_rows(
            *corpus,
        ).len() > 0 ==> (match r {
            Ok(q) => q.numerator == q.denominator,
            Err(_) => false,
        }),
{
    let documents = corpus.nrows();
    match document_frequency.get(term) {
        Some(containing) => {
            if containing == 0 {
                Err(StatsError::Arithmetic)
            } else {
                Ok(Ratio { numerator: documents as u64, denominator: containing })
            }
        },
        None => Err(StatsError::Arithmetic),
    }
}

} // verus!
