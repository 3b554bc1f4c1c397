//! Tables of connections, told apart by their endpoints: looking one up, and keeping them distinct.
use vstd::prelude::*;

use crate::tcp::header::Quad;

verus! {

/// The index of `quad`, or the length if it is not there.
pub open spec fn index_of(quads: Seq<Quad>, quad: Quad) -> int
    decreases quads.len(),
{
    if quads.len() == 0 {
        0
    } else {
        let i = index_of(quads.drop_last(), quad);
        if i < quads.len() - 1 || quads.last() == quad {
            i
        } else {
            quads.len() as int
        }
    }
}

/// No two are the same.
pub open spec fn distinct(quads: Seq<Quad>) -> bool {
    forall|i: int, j: int| 0 <= i < j < quads.len() ==> #[trigger] quads[i] != #[trigger] quads[j]
}

/// Every one of `few` is one of `quads`.
pub open spec fn drawn_from(few: Seq<Quad>, quads: Seq<Quad>) -> bool {
    forall|k: int| 0 <= k < few.len() ==> quads.contains(#[trigger] few[k])
}

/// An index where `quad` stands, with none before it, is the index.
pub proof fn lemma_index(quads: Seq<Quad>, quad: Quad, i: int)
    requires
        0 <= i <= quads.len(),
        i < quads.len() ==> quads[i] == quad,
        forall|j: int| 0 <= j < i ==> #[trigger] quads[j] != quad,
    ensures
        index_of(quads, quad) == i,
    decreases quads.len(),
{
    if quads.len() > 0 {
        if i < quads.len() {
            lemma_index(quads.drop_last(), quad, i);
        } else {
            lemma_index(quads.drop_last(), quad, i - 1);
            assert(quads[i - 1] != quad);
        }
    }
}

/// The index found is that of the first occurrence.
pub proof fn lemma_index_found(quads: Seq<Quad>, quad: Quad)
    ensures
        0 <= index_of(quads, quad) <= quads.len(),
        index_of(quads, quad) < quads.len() ==> quads[index_of(quads, quad)] == quad,
        forall|j: int| 0 <= j < index_of(quads, quad) ==> #[trigger] quads[j] != quad,
    decreases quads.len(),
{
    if quads.len() > 0 {
        let short = quads.drop_last();
        lemma_index_found(short, quad);
        let i = index_of(quads, quad);
        assert forall|j: int| 0 <= j < i implies #[trigger] quads[j] != quad by {
            if j < short.len() {
                assert(short[j] == quads[j]);
            }
        }
        if i < short.len() {
            assert(short[i] == quads[i]);
        }
    }
}

/// Going through a table and keeping some of it keeps it distinct: one more step, with the next
/// entry kept or left out.
pub proof fn lemma_keeping_some(few: Seq<Quad>, quads: Seq<Quad>)
    requires
        quads.len() > 0,
        distinct(quads),
        distinct(quads.drop_last()) ==> distinct(few),
        drawn_from(few, quads.drop_last()),
    ensures
        distinct(few),
        distinct(few.push(quads.last())),
        drawn_from(few, quads),
        drawn_from(few.push(quads.last()), quads),
{
    let short = quads.drop_last();
    let n = quads.len() - 1;
    assert(distinct(short)) by {
        assert forall|i: int, j: int| 0 <= i < j < short.len() implies #[trigger] short[i]
            != #[trigger] short[j] by {
            assert(short[i] == quads[i] && short[j] == quads[j]);
        }
    }
    let more = few.push(quads.last());
    assert forall|k: int| 0 <= k < few.len() implies quads.contains(#[trigger] few[k]) && few[k]
        != quads.last() by {
        let j = choose|j: int| 0 <= j < short.len() && short[j] == few[k];
        assert(quads[j] == short[j]);
        assert(quads[j] != quads[n]);
    }
    assert forall|k: int| 0 <= k < more.len() implies quads.contains(#[trigger] more[k]) by {
        if k < few.len() {
            assert(more[k] == few[k]);
        } else {
            assert(more[k] == quads[n]);
        }
    }
    assert forall|i: int, j: int| 0 <= i < j < more.len() implies #[trigger] more[i]
        != #[trigger] more[j] by {
        assert(more[i] == few[i]);
        if j < few.len() {
            assert(more[j] == few[j]);
        }
    }
}

/// A table stays distinct when an entry leaves, or when one joins that was not there.
pub proof fn lemma_changing_one(quads: Seq<Quad>, quad: Quad)
    requires
        distinct(quads),
    ensures
        forall|i: int| 0 <= i < quads.len() ==> distinct(#[trigger] quads.remove(i)),
        index_of(quads, quad) == quads.len() ==> distinct(quads.push(quad)),
{
    lemma_index_found(quads, quad);
    assert forall|i: int| 0 <= i < quads.len() implies distinct(#[trigger] quads.remove(i)) by {
        let less = quads.remove(i);
        assert forall|j: int, k: int| 0 <= j < k < less.len() implies #[trigger] less[j]
            != #[trigger] less[k] by {
            let a = if j < i {
                j
            } else {
                j + 1
            };
            let b = if k < i {
                k
            } else {
                k + 1
            };
            assert(less[j] == quads[a] && less[k] == quads[b]);
        }
    }
}

} // verus!
