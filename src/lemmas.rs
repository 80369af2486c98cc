use vstd::prelude::*;

use crate::normalize::{extend_vocabulary, label_position, lemma_label_position};
use crate::table::{add_counts, count_in, document_counts, lemma_occurrences_bounded, occurrences};

verus! {

/// Building a vocabulary from a document keeps every term at one index, keeps every index
/// that was already assigned, gives an index to every term of the document, and gives the
/// new indices, counting on from the old size, only to terms of the document that were new.
pub proof fn lemma_vocabulary_indices(v: Seq<Seq<char>>, doc: Seq<Seq<char>>)
    requires
        v.no_duplicates(),
    ensures
        extend_vocabulary(v, doc).no_duplicates(),
        extend_vocabulary(v, doc).len() >= v.len(),
        extend_vocabulary(v, doc).subrange(0, v.len() as int) == v,
        forall|t: Seq<char>| doc.contains(t) ==> extend_vocabulary(v, doc).contains(t),
        forall|i: int|
            v.len() <= i < extend_vocabulary(v, doc).len() ==> doc.contains(
                #[trigger] extend_vocabulary(v, doc)[i],
            ) && !v.contains(extend_vocabulary(v, doc)[i]),
    decreases doc.len(),
{
    let w = extend_vocabulary(v, doc);
    if doc.len() == 0 {
        assert(w.subrange(0, v.len() as int) =~= v);
    } else {
        let init = doc.drop_last();
        let x = doc.last();
        let u = extend_vocabulary(v, init);
        lemma_vocabulary_indices(v, init);
        assert forall|t: Seq<char>| doc.contains(t) implies w.contains(t) by {
            let j = choose|j: int| 0 <= j < doc.len() && doc[j] == t;
            if j < init.len() {
                assert(init[j] == t);
                assert(init.contains(t));
                assert(u.contains(t));
                let k = choose|k: int| 0 <= k < u.len() && u[k] == t;
                if !u.contains(x) {
                    assert(w[k] == t);
                }
            } else if !u.contains(x) {
                assert(w[u.len() as int] == t);
            }
        }
        assert forall|i: int| v.len() <= i < w.len() implies doc.contains(#[trigger] w[i]) && !v.contains(
            w[i],
        ) by {
            if i < u.len() {
                assert(w[i] == u[i]);
                let j = choose|j: int| 0 <= j < init.len() && init[j] == u[i];
                assert(doc[j] == u[i]);
            } else {
                assert(w[i] == x);
                assert(doc[doc.len() - 1] == x);
                if v.contains(x) {
                    let k = choose|k: int| 0 <= k < v.len() && v[k] == x;
                    assert(u.subrange(0, v.len() as int)[k] == x);
                    assert(u[k] == x);
                }
            }
        }
        if !u.contains(x) {
            assert(w.subrange(0, v.len() as int) =~= u.subrange(0, v.len() as int));
        }
    }
}

/// The sum of the occurrences in `row` of each of `terms`.
pub open spec fn sum_occurrences(row: Seq<Seq<char>>, terms: Seq<Seq<char>>) -> nat
    decreases terms.len(),
{
    if terms.len() == 0 {
        0
    } else {
        sum_occurrences(row, terms.drop_last()) + occurrences(row, terms.last())
    }
}

proof fn lemma_sum_empty_row(terms: Seq<Seq<char>>)
    ensures
        sum_occurrences(Seq::empty(), terms) == 0,
    decreases terms.len(),
{
    if terms.len() > 0 {
        lemma_sum_empty_row(terms.drop_last());
    }
}

proof fn lemma_sum_split(row: Seq<Seq<char>>, terms: Seq<Seq<char>>)
    requires
        row.len() > 0,
    ensures
        sum_occurrences(row, terms) == sum_occurrences(row.drop_last(), terms) + occurrences(
            terms,
            row.last(),
        ),
    decreases terms.len(),
{
    if terms.len() > 0 {
        lemma_sum_split(row, terms.drop_last());
    }
}

proof fn lemma_unique_occurrence(terms: Seq<Seq<char>>, x: Seq<char>)
    requires
        terms.no_duplicates(),
        terms.contains(x),
    ensures
        occurrences(terms, x) == 1,
    decreases terms.len(),
{
    let init = terms.drop_last();
    if terms.last() == x {
        if init.contains(x) {
            let j = choose|j: int| 0 <= j < init.len() && init[j] == x;
            assert(terms[j] == terms[terms.len() - 1]);
        }
        lemma_occurrences_bounded(init, x);
    } else {
        let j = choose|j: int| 0 <= j < terms.len() && terms[j] == x;
        assert(init[j] == x);
        lemma_unique_occurrence(init, x);
    }
}

/// The term frequencies of a document's distinct terms add up to one: where `terms` lists
/// each term of `row` once, the counts that `tf` puts over the row's length add up to that
/// length.
pub proof fn lemma_term_frequencies_sum_to_one(row: Seq<Seq<char>>, terms: Seq<Seq<char>>)
    requires
        terms.no_duplicates(),
        forall|t: Seq<char>| row.contains(t) ==> terms.contains(t),
    ensures
        sum_occurrences(row, terms) == row.len(),
    decreases row.len(),
{
    if row.len() == 0 {
        lemma_sum_empty_row(terms);
        assert(row =~= Seq::empty());
    } else {
        let init = row.drop_last();
        assert forall|t: Seq<char>| init.contains(t) implies terms.contains(t) by {
            let j = choose|j: int| 0 <= j < init.len() && init[j] == t;
            assert(row[j] == t);
        }
        lemma_term_frequencies_sum_to_one(init, terms);
        lemma_sum_split(row, terms);
        assert(row[row.len() - 1] == row.last());
        lemma_unique_occurrence(terms, row.last());
    }
}

/// The class tables after folding, in order, each document whose tag is a known label into
/// the table of that label, starting from one empty table per label.
pub open spec fn classes_after(docs: Seq<Seq<Seq<char>>>, tags: Seq<u8>, labels: Seq<u8>) -> Seq<
    Map<Seq<char>, nat>,
>
    decreases docs.len(),
{
    if docs.len() == 0 || tags.len() == 0 {
        Seq::new(labels.len(), |i: int| Map::<Seq<char>, nat>::empty())
    } else {
        let prev = classes_after(docs.drop_last(), tags.drop_last(), labels);
        let p = label_position(labels, tags.last());
        if p < 0 {
            prev
        } else {
            prev.update(p, add_counts(prev[p], document_counts(docs.last())))
        }
    }
}

/// The overall counts after folding, in order, every document into an empty table.
pub open spec fn overall_after(docs: Seq<Seq<Seq<char>>>) -> Map<Seq<char>, nat>
    decreases docs.len(),
{
    if docs.len() == 0 {
        Map::empty()
    } else {
        add_counts(overall_after(docs.drop_last()), document_counts(docs.last()))
    }
}

/// The occurrences of `t` in the documents whose tag is one of `labels`.
pub open spec fn labelled_occurrences(
    docs: Seq<Seq<Seq<char>>>,
    tags: Seq<u8>,
    labels: Seq<u8>,
    t: Seq<char>,
) -> nat
    decreases docs.len(),
{
    if docs.len() == 0 || tags.len() == 0 {
        0
    } else {
        labelled_occurrences(docs.drop_last(), tags.drop_last(), labels, t) + if labels.contains(
            tags.last(),
        ) {
            occurrences(docs.last(), t)
        } else {
            0
        }
    }
}

/// The occurrences of `t` in all the documents.
pub open spec fn all_occurrences(docs: Seq<Seq<Seq<char>>>, t: Seq<char>) -> nat
    decreases docs.len(),
{
    if docs.len() == 0 {
        0
    } else {
        all_occurrences(docs.drop_last(), t) + occurrences(docs.last(), t)
    }
}

/// The sum over the class tables of the count of `t`.
pub open spec fn class_total(classes: Seq<Map<Seq<char>, nat>>, t: Seq<char>) -> nat
    decreases classes.len(),
{
    if classes.len() == 0 {
        0
    } else {
        class_total(classes.drop_last(), t) + count_in(classes.last(), t)
    }
}

/// Replacing one class table changes the total by the difference of the two tables' counts.
pub proof fn lemma_class_total_update(
    classes: Seq<Map<Seq<char>, nat>>,
    p: int,
    m: Map<Seq<char>, nat>,
    t: Seq<char>,
)
    requires
        0 <= p < classes.len(),
    ensures
        class_total(classes.update(p, m), t) + count_in(classes[p], t) == class_total(classes, t)
            + count_in(m, t),
    decreases classes.len(),
{
    let u = classes.update(p, m);
    if p < classes.len() - 1 {
        assert(u.drop_last() =~= classes.drop_last().update(p, m));
        lemma_class_total_update(classes.drop_last(), p, m, t);
    } else {
        assert(u.drop_last() =~= classes.drop_last());
    }
}

proof fn lemma_class_total_empty(n: nat, t: Seq<char>)
    ensures
        class_total(Seq::new(n, |i: int| Map::<Seq<char>, nat>::empty()), t) == 0,
    decreases n,
{
    if n > 0 {
        lemma_class_total_empty((n - 1) as nat, t);
        assert(Seq::new(n, |i: int| Map::<Seq<char>, nat>::empty()).drop_last() =~= Seq::new(
            (n - 1) as nat,
            |i: int| Map::<Seq<char>, nat>::empty(),
        ));
    }
}

proof fn lemma_document_count(doc: Seq<Seq<char>>, t: Seq<char>)
    ensures
        count_in(document_counts(doc), t) == occurrences(doc, t),
{
    lemma_occurrences_bounded(doc, t);
}

/// Per-class counts partition the labelled counts: after folding a sequence of tagged
/// documents, the counts of a term summed over all the class tables equal its occurrences
/// in the documents whose tag is a known label, while the overall table counts its
/// occurrences in every document.
pub proof fn lemma_class_counts_partition(
    docs: Seq<Seq<Seq<char>>>,
    tags: Seq<u8>,
    labels: Seq<u8>,
    t: Seq<char>,
)
    requires
        docs.len() == tags.len(),
    ensures
        classes_after(docs, tags, labels).len() == labels.len(),
        class_total(classes_after(docs, tags, labels), t) == labelled_occurrences(
            docs,
            tags,
            labels,
            t,
        ),
        count_in(overall_after(docs), t) == all_occurrences(docs, t),
    decreases docs.len(),
{
    if docs.len() == 0 {
        lemma_class_total_empty(labels.len(), t);
    } else {
        let d = docs.drop_last();
        let g = tags.drop_last();
        lemma_class_counts_partition(d, g, labels, t);
        lemma_label_position(labels, tags.last());
        lemma_document_count(docs.last(), t);
        let prev = classes_after(d, g, labels);
        let p = label_position(labels, tags.last());
        if p >= 0 {
            lemma_class_total_update(
                prev,
                p,
                add_counts(prev[p], document_counts(docs.last())),
                t,
            );
        }
    }
}

} // verus!
