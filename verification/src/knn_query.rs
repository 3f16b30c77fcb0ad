//! Queries for the documents nearest to a vector.

use vstd::prelude::*;
use vstd::seq_lib::*;

use crate::arith;
use crate::arith::{times, Calc, Op};
use crate::error::VectorError;
use crate::floatbits::ONE_BITS;
use crate::options::VectorOptions;
use crate::reader;
use crate::reader::{FieldView, VectorFieldReaders};
use crate::reader_laws;

verus! {

/// The document id that stands for the end of a document set.
pub const TERMINATED: u32 = 0x7fff_ffff;

// ---------------------------------------------------------------------------
// Hits in the order of their documents
// ---------------------------------------------------------------------------

/// Hits in the order of their documents with one more, which goes behind those of the
/// same document.
pub open spec fn placed(hits: Seq<(u32, u32)>, h: (u32, u32)) -> Seq<(u32, u32)>
    decreases hits.len(),
{
    if hits.len() == 0 || hits.last().0 <= h.0 {
        hits.push(h)
    } else {
        placed(hits.drop_last(), h).push(hits.last())
    }
}

/// Hits in the order of their documents.
pub open spec fn by_doc(hits: Seq<(u32, u32)>) -> Seq<(u32, u32)>
    decreases hits.len(),
{
    if hits.len() == 0 {
        Seq::empty()
    } else {
        placed(by_doc(hits.drop_last()), hits.last())
    }
}

/// Whether hits stand in the order of their documents.
pub open spec fn in_doc_order(hits: Seq<(u32, u32)>) -> bool {
    forall|i: int, j: int| 0 <= i <= j < hits.len() ==> hits[i].0 <= hits[j].0
}

proof fn lemma_placed(hits: Seq<(u32, u32)>, h: (u32, u32))
    requires
        in_doc_order(hits),
    ensures
        in_doc_order(placed(hits, h)),
        placed(hits, h).to_multiset() == hits.to_multiset().insert(h),
        placed(hits, h).len() == hits.len() + 1,
        forall|i: int|
            0 <= i < placed(hits, h).len() ==> (#[trigger] placed(hits, h)[i]).0 <= h.0 || (
            hits.len() > 0 && placed(hits, h)[i].0 <= hits.last().0),
    decreases hits.len(),
{
    broadcast use group_to_multiset_ensures;

    if hits.len() == 0 || hits.last().0 <= h.0 {
        assert forall|i: int| 0 <= i < hits.len() implies (#[trigger] hits[i]).0 <= h.0 by {
            assert(hits[i].0 <= hits[hits.len() - 1].0);
        }
    } else {
        let init = hits.drop_last();
        let last = hits.last();
        assert(in_doc_order(init));
        lemma_placed(init, h);
        let r = placed(init, h);
        assert(hits =~= init.push(last));
        assert(r.push(last).to_multiset() =~= hits.to_multiset().insert(h));
        assert forall|i: int| 0 <= i < r.len() implies (#[trigger] r[i]).0 <= last.0 by {
            if init.len() > 0 {
                assert(init.last() == hits[hits.len() - 2]);
            }
        }
    }
}

/// Ordering hits by document keeps each of them.
pub proof fn by_doc_is_an_ordering(hits: Seq<(u32, u32)>)
    ensures
        in_doc_order(by_doc(hits)),
        by_doc(hits).to_multiset() == hits.to_multiset(),
        by_doc(hits).len() == hits.len(),
    decreases hits.len(),
{
    broadcast use group_to_multiset_ensures;

    if hits.len() > 0 {
        let init = hits.drop_last();
        by_doc_is_an_ordering(init);
        lemma_placed(by_doc(init), hits.last());
        assert(hits =~= init.push(hits.last()));
    } else {
        assert(hits =~= by_doc(hits));
    }
}

proof fn lemma_placed_at(hits: Seq<(u32, u32)>, h: (u32, u32), p: int)
    requires
        in_doc_order(hits),
        0 <= p <= hits.len(),
        p > 0 ==> hits[p - 1].0 <= h.0,
        p < hits.len() ==> hits[p].0 > h.0,
    ensures
        placed(hits, h) == hits.insert(p, h),
    decreases hits.len(),
{
    if p == hits.len() {
        assert(hits.insert(p, h) =~= hits.push(h));
    } else {
        let init = hits.drop_last();
        assert(hits.last().0 > h.0) by {
            assert(hits[p].0 <= hits[hits.len() - 1].0);
        }
        assert(in_doc_order(init));
        lemma_placed_at(init, h, p);
        assert(hits.insert(p, h) =~= init.insert(p, h).push(hits.last()));
    }
}

/// Puts hits in the order of their documents.
pub fn sort_by_doc(hits: &Vec<(u32, u32)>) -> (r: Vec<(u32, u32)>)
    ensures
        r@ == by_doc(hits@),
{
    let n: usize = hits.len();
    let mut out: Vec<(u32, u32)> = Vec::new();
    for i in 0..n
        invariant
            n == hits@.len(),
            out@ == by_doc(hits@.take(i as int)),
            in_doc_order(out@),
    {
        let h: (u32, u32) = hits[i];
        let mut p: usize = out.len();
        while p > 0 && out[p - 1].0 > h.0
            invariant
                p <= out@.len(),
                p < out@.len() ==> out@[p as int].0 > h.0,
            decreases p,
        {
            p = p - 1;
        }
        proof {
            lemma_placed_at(out@, h, p as int);
            lemma_placed(out@, h);
            assert(hits@.take(i + 1).drop_last() =~= hits@.take(i as int));
        }
        out.insert(p, h);
    }
    assert(hits@.take(n as int) =~= hits@);
    out
}

// ---------------------------------------------------------------------------
// Scorer
// ---------------------------------------------------------------------------

/// What a scorer stands for: documents, their scores, and the one it stands at.
#[verifier::ext_equal]
pub struct Cursor {
    pub docs: Seq<u32>,
    pub scores: Seq<u32>,
    pub at: nat,
}

/// Walks the documents that a query found.
pub struct KnnScorer {
    docs: Vec<u32>,
    scores: Vec<u32>,
    cursor: usize,
}

impl View for KnnScorer {
    type V = Cursor;

    closed spec fn view(&self) -> Cursor {
        Cursor { docs: self.docs@, scores: self.scores@, at: self.cursor as nat }
    }
}

/// The document that a cursor stands at.
pub open spec fn doc_at(c: Cursor) -> u32 {
    if c.at < c.docs.len() {
        c.docs[c.at as int]
    } else {
        TERMINATED
    }
}

/// The score of the document that a cursor stands at; zero at the end.
pub open spec fn score_at(c: Cursor) -> u32 {
    if c.at < c.scores.len() {
        c.scores[c.at as int]
    } else {
        0
    }
}

/// A cursor one document on.
pub open spec fn moved_on(c: Cursor) -> Cursor {
    Cursor {
        at: if c.at < c.docs.len() {
            c.at + 1
        } else {
            c.docs.len()
        },
        ..c
    }
}

/// A cursor moved on to the first document that is at least `target`.
pub open spec fn moved_to(c: Cursor, target: u32) -> Cursor
    decreases c.docs.len() - c.at,
{
    if c.at < c.docs.len() && c.docs[c.at as int] < target {
        moved_to(moved_on(c), target)
    } else {
        c
    }
}

impl KnnScorer {
    #[verifier::type_invariant]
    spec fn paired(&self) -> bool {
        self.docs@.len() == self.scores@.len() && self.cursor <= self.docs@.len()
    }

    /// A scorer that stands at the first of some documents.
    pub fn new(docs: Vec<u32>, scores: Vec<u32>) -> (r: Self)
        requires
            docs@.len() == scores@.len(),
        ensures
            r@ == (Cursor { docs: docs@, scores: scores@, at: 0 }),
    {
        KnnScorer { docs, scores, cursor: 0 }
    }

    /// Moves on to the next document and gives it.
    pub fn advance(&mut self) -> (r: u32)
        ensures
            final(self)@ == moved_on(old(self)@),
            r == doc_at(final(self)@),
    {
        proof {
            use_type_invariant(&*self);
        }
        if self.cursor < self.docs.len() {
            self.cursor = self.cursor + 1;
        }
        self.doc()
    }

    /// The document that the scorer stands at, or [`TERMINATED`].
    pub fn doc(&self) -> (r: u32)
        ensures
            r == doc_at(self@),
    {
        if self.cursor >= self.docs.len() {
            return TERMINATED;
        }
        self.docs[self.cursor]
    }

    /// Moves on to the first document that is at least `target` and gives it.
    pub fn seek(&mut self, target: u32) -> (r: u32)
        requires
            target <= TERMINATED,
        ensures
            final(self)@ == moved_to(old(self)@, target),
            r == doc_at(final(self)@),
    {
        let mut doc: u32 = self.doc();
        while doc < target
            invariant
                target <= TERMINATED,
                doc == doc_at(self@),
                moved_to(self@, target) == moved_to(old(self)@, target),
            decreases self@.docs.len() - self@.at,
        {
            doc = self.advance();
        }
        doc
    }

    /// Number of documents.
    pub fn size_hint(&self) -> (r: u32)
        ensures
            r == self@.docs.len() as u32,
    {
        self.docs.len() as u32
    }

    /// The score of the document that the scorer stands at; zero at the end.
    pub fn score(&self) -> (r: u32)
        ensures
            r == score_at(self@),
    {
        if self.cursor >= self.scores.len() {
            return 0;
        }
        self.scores[self.cursor]
    }
}

/// The cursor over hits: the documents in order, their scores multiplied by a boost.
pub open spec fn cursor_over(m: Calc, hits: Seq<(u32, u32)>, boost: u32) -> Cursor {
    let sorted = by_doc(hits);
    Cursor {
        docs: sorted.map_values(|h: (u32, u32)| h.0),
        scores: sorted.map_values(|h: (u32, u32)| m(Op::Mul, h.1, boost)),
        at: 0,
    }
}

/// A scorer over hits.
pub fn scorer_over<A: Fn(Op, u32, u32) -> u32>(
    arith: &A,
    hits: &Vec<(u32, u32)>,
    boost: u32,
) -> (r: KnnScorer)
    requires
        arith::is_arithmetic(*arith),
    ensures
        r@ == cursor_over(arith::calc(*arith), hits@, boost),
{
    let ghost m = arith::calc(*arith);
    let sorted: Vec<(u32, u32)> = sort_by_doc(hits);
    let ghost all = sorted@;
    let mut docs: Vec<u32> = Vec::new();
    let mut scores: Vec<u32> = Vec::new();
    for i in 0..sorted.len()
        invariant
            arith::is_arithmetic(*arith),
            m == arith::calc(*arith),
            sorted@ == all,
            docs@.len() == i,
            scores@.len() == i,
            forall|j: int| 0 <= j < i ==> #[trigger] docs@[j] == all[j].0,
            forall|j: int| 0 <= j < i ==> #[trigger] scores@[j] == m(Op::Mul, all[j].1, boost),
    {
        docs.push(sorted[i].0);
        scores.push(times(arith, sorted[i].1, boost));
    }
    let r = KnnScorer::new(docs, scores);
    assert(r@ =~= cursor_over(m, hits@, boost));
    r
}

// ---------------------------------------------------------------------------
// Query
// ---------------------------------------------------------------------------

/// A search for the `k` documents nearest to a vector.
#[derive(Clone)]
pub struct KnnQuery {
    field: u32,
    query_vector: Vec<u32>,
    k: usize,
    ef_search: usize,
}

/// What a query asks for.
#[verifier::ext_equal]
pub struct Request {
    pub field: u32,
    pub query: Seq<u32>,
    pub k: usize,
    pub ef: usize,
}

impl View for KnnQuery {
    type V = Request;

    closed spec fn view(&self) -> Request {
        Request {
            field: self.field,
            query: self.query_vector@,
            k: self.k,
            ef: self.ef_search,
        }
    }
}

/// A query that was checked against the schema.
pub struct KnnWeight {
    field: u32,
    query_vector: Vec<u32>,
    k: usize,
    ef_search: usize,
}

impl View for KnnWeight {
    type V = Request;

    closed spec fn view(&self) -> Request {
        Request {
            field: self.field,
            query: self.query_vector@,
            k: self.k,
            ef: self.ef_search,
        }
    }
}

/// The width that a search for `k` documents has unless another is set.
pub open spec fn default_ef(k: int) -> int {
    2 * if k < 32 {
        32
    } else {
        k
    }
}

impl KnnQuery {
    /// A query for the `k` documents nearest to a vector. The search is as wide as is
    /// sensible; see [`Self::with_ef_search`].
    pub fn new(field: u32, query_vector: Vec<u32>, k: usize) -> (r: Self)
        requires
            default_ef(k as int) <= usize::MAX,
        ensures
            r@ == (Request {
                field,
                query: query_vector@,
                k,
                ef: default_ef(k as int) as usize,
            }),
    {
        let wide: usize = if k < 32 {
            32
        } else {
            k
        };
        KnnQuery { field, query_vector, k, ef_search: wide * 2 }
    }

    /// Sets how wide the search is.
    pub fn with_ef_search(self, ef_search: usize) -> (r: Self)
        ensures
            r@ == (Request { ef: ef_search, ..self@ }),
    {
        KnnQuery { field: self.field, query_vector: self.query_vector, k: self.k, ef_search }
    }

    /// Field searched.
    pub fn field(&self) -> (r: u32)
        ensures
            r == self@.field,
    {
        self.field
    }

    /// Number of documents asked for.
    pub fn k(&self) -> (r: usize)
        ensures
            r == self@.k,
    {
        self.k
    }

    /// Checks the query against a schema, given by the options of each field that is a
    /// vector field.
    pub fn weight(&self, schema: &Vec<Option<VectorOptions>>) -> (r: Result<
        KnnWeight,
        VectorError,
    >)
        requires
            self@.field < schema@.len(),
        ensures
            match r {
                Ok(w) => schema@[self@.field as int] is Some && w@ == self@,
                Err(e) => schema@[self@.field as int] is None && e
                    == VectorError::NotAVectorField,
            },
    {
        match schema[self.field as usize] {
            Some(_) => {
                let mut query_vector: Vec<u32> = Vec::new();
                query_vector.extend_from_slice(self.query_vector.as_slice());
                assert(query_vector@ =~= self.query_vector@);
                Ok(
                    KnnWeight {
                        field: self.field,
                        query_vector,
                        k: self.k,
                        ef_search: self.ef_search,
                    },
                )
            },
            None => Err(VectorError::NotAVectorField),
        }
    }
}

/// Why a query cannot be run on a segment, if it cannot.
pub open spec fn query_error(w: Request, segment: Map<u32, FieldView>) -> Option<VectorError> {
    if segment.dom().contains(w.field) && w.query.len()
        != segment[w.field].field.options.dimension {
        Some(
            VectorError::QueryDimension {
                got: w.query.len() as usize,
                expected: segment[w.field].field.options.dimension,
            },
        )
    } else {
        None
    }
}

/// What a query finds in a segment: nothing where the segment lacks the field.
pub open spec fn query_hits(m: Calc, w: Request, segment: Map<u32, FieldView>) -> Seq<(u32, u32)> {
    if segment.dom().contains(w.field) {
        reader::field_hits(m, segment[w.field], w.query, w.k as nat, w.ef as nat)
    } else {
        Seq::empty()
    }
}

/// Whether a query can be run on a segment: the field that it is aimed at can be
/// searched, where the segment has it and the dimensions agree.
pub open spec fn runnable(w: Request, segment: Map<u32, FieldView>) -> bool {
    segment.dom().contains(w.field) && query_error(w, segment) is None ==> reader::searchable(
        segment[w.field],
        w.query.len(),
        w.k as nat,
    )
}

/// The score of a document, or why it has none.
pub open spec fn explanation(m: Calc, w: Request, segment: Map<u32, FieldView>, doc: u32) -> Result<
    u32,
    VectorError,
> {
    let c = moved_to(cursor_over(m, query_hits(m, w, segment), ONE_BITS), doc);
    if query_error(w, segment) is Some {
        Err(query_error(w, segment)->0)
    } else if doc_at(c) != doc {
        Err(VectorError::NotAmongResults { doc })
    } else {
        Ok(score_at(c))
    }
}

impl KnnWeight {
    /// Runs the query on a segment.
    pub fn scorer<A: Fn(Op, u32, u32) -> u32>(
        &self,
        arith: &A,
        readers: &VectorFieldReaders,
        boost: u32,
    ) -> (r: Result<KnnScorer, VectorError>)
        requires
            arith::is_arithmetic(*arith),
            runnable(self@, readers@),
        ensures
            match r {
                Ok(s) => query_error(self@, readers@) is None && s@ == cursor_over(
                    arith::calc(*arith),
                    query_hits(arith::calc(*arith), self@, readers@),
                    boost,
                ),
                Err(e) => query_error(self@, readers@) == Some(e),
            },
    {
        let ghost m = arith::calc(*arith);
        match readers.get(self.field) {
            None => {
                let r = KnnScorer::new(Vec::new(), Vec::new());
                assert(r@ =~= cursor_over(m, Seq::empty(), boost));
                Ok(r)
            },
            Some(reader) => {
                let dim: usize = reader.options().dimension;
                let got: usize = self.query_vector.len();
                if got != dim {
                    return Err(VectorError::QueryDimension { got, expected: dim });
                }
                match reader.search(
                    arith,
                    self.query_vector.as_slice(),
                    self.k,
                    self.ef_search,
                ) {
                    Ok(hits) => Ok(scorer_over(arith, &hits, boost)),
                    Err(e) => Err(e),
                }
            },
        }
    }

    /// The score of a document among those that the query finds.
    pub fn explain<A: Fn(Op, u32, u32) -> u32>(
        &self,
        arith: &A,
        readers: &VectorFieldReaders,
        doc: u32,
    ) -> (r: Result<u32, VectorError>)
        requires
            arith::is_arithmetic(*arith),
            runnable(self@, readers@),
            doc <= TERMINATED,
        ensures
            r == explanation(arith::calc(*arith), self@, readers@, doc),
    {
        let mut scorer: KnnScorer = match self.scorer(arith, readers, ONE_BITS) {
            Ok(s) => s,
            Err(e) => return Err(e),
        };
        if scorer.seek(doc) != doc {
            return Err(VectorError::NotAmongResults { doc });
        }
        Ok(scorer.score())
    }
}

// ---------------------------------------------------------------------------
// Laws
// ---------------------------------------------------------------------------

proof fn lemma_moved_to(c: Cursor, target: u32)
    requires
        c.at <= c.docs.len(),
    ensures
        ({
            let r = moved_to(c, target);
            &&& r.docs == c.docs
            &&& r.scores == c.scores
            &&& c.at <= r.at <= c.docs.len()
            &&& forall|i: int| c.at <= i < r.at ==> #[trigger] c.docs[i] < target
            &&& r.at < c.docs.len() ==> c.docs[r.at as int] >= target
        }),
    decreases c.docs.len() - c.at,
{
    if c.at < c.docs.len() && c.docs[c.at as int] < target {
        lemma_moved_to(moved_on(c), target);
    }
}

proof fn lemma_by_doc_contains(hits: Seq<(u32, u32)>, h: (u32, u32))
    ensures
        by_doc(hits).contains(h) == hits.contains(h),
{
    broadcast use group_to_multiset_ensures;

    by_doc_is_an_ordering(hits);
    assert(hits.contains(h) == (hits.to_multiset().count(h) > 0));
    assert(by_doc(hits).contains(h) == (by_doc(hits).to_multiset().count(h) > 0));
}

/// Seeking a document in a scorer over hits finds it if and only if it is one of the
/// hits, and then at its score, where no document occurs twice.
pub proof fn seek_finds_exactly_the_hits(
    m: Calc,
    hits: Seq<(u32, u32)>,
    boost: u32,
    doc: u32,
)
    requires
        doc < TERMINATED,
    ensures
        ({
            let c = moved_to(cursor_over(m, hits, boost), doc);
            &&& doc_at(c) == doc <==> exists|i: int|
                0 <= i < hits.len() && (#[trigger] hits[i]).0 == doc
            &&& forall|i: int|
                0 <= i < hits.len() && (#[trigger] hits[i]).0 == doc && (forall|j: int|
                    0 <= j < hits.len() && (#[trigger] hits[j]).0 == doc ==> i == j) ==> score_at(c)
                    == m(Op::Mul, hits[i].1, boost)
        }),
{
    let first = cursor_over(m, hits, boost);
    let c = moved_to(first, doc);
    let sorted = by_doc(hits);
    by_doc_is_an_ordering(hits);
    lemma_moved_to(first, doc);
    if doc_at(c) == doc {
        let h = sorted[c.at as int];
        assert(sorted.contains(h));
        lemma_by_doc_contains(hits, h);
        let i = choose|i: int| 0 <= i < hits.len() && hits[i] == h;
        assert(hits[i].0 == doc);
        assert forall|i: int|
            0 <= i < hits.len() && (#[trigger] hits[i]).0 == doc && (forall|j: int|
                0 <= j < hits.len() && (#[trigger] hits[j]).0 == doc ==> i == j) implies score_at(c)
            == m(Op::Mul, hits[i].1, boost) by {
            let j = choose|j: int| 0 <= j < hits.len() && hits[j] == h;
            assert(hits[j].0 == doc);
        }
    }
    if exists|i: int| 0 <= i < hits.len() && (#[trigger] hits[i]).0 == doc {
        let i = choose|i: int| 0 <= i < hits.len() && (#[trigger] hits[i]).0 == doc;
        lemma_by_doc_contains(hits, hits[i]);
        assert(hits.contains(hits[i]));
        let j = choose|j: int| 0 <= j < sorted.len() && sorted[j] == hits[i];
        assert(first.docs[j] == doc);
        assert(c.at <= j);
        assert(sorted[c.at as int].0 <= sorted[j].0);
    }
}

/// A scorer walks its documents in ascending order.
pub proof fn scorer_walks_in_order(m: Calc, hits: Seq<(u32, u32)>, boost: u32)
    ensures
        cursor_over(m, hits, boost).docs.len() == hits.len(),
        cursor_over(m, hits, boost).scores.len() == hits.len(),
        forall|i: int, j: int|
            0 <= i <= j < hits.len() ==> cursor_over(m, hits, boost).docs[i] <= cursor_over(
                m,
                hits,
                boost,
            ).docs[j],
{
    by_doc_is_an_ordering(hits);
}

/// A scorer over hits stands at the first document, and has each hit once, at its document
/// with its score times the boost.
pub proof fn scorer_has_each_hit(m: Calc, hits: Seq<(u32, u32)>, boost: u32, h: (u32, u32))
    ensures
        ({
            let c = cursor_over(m, hits, boost);
            &&& c.at == 0
            &&& c.docs.len() == hits.len()
            &&& c.scores.len() == hits.len()
            &&& forall|i: int, j: int|
                0 <= i <= j < c.docs.len() ==> #[trigger] c.docs[i] <= #[trigger] c.docs[j]
            &&& hits.contains(h) ==> exists|p: int|
                0 <= p < c.docs.len() && #[trigger] c.docs[p] == h.0 && c.scores[p] == m(
                    Op::Mul,
                    h.1,
                    boost,
                )
            &&& forall|p: int|
                0 <= p < c.docs.len() ==> exists|i: int|
                    0 <= i < hits.len() && (#[trigger] hits[i]).0 == #[trigger] c.docs[p]
                        && c.scores[p] == m(Op::Mul, hits[i].1, boost)
        }),
{
    let c = cursor_over(m, hits, boost);
    let sorted = by_doc(hits);
    by_doc_is_an_ordering(hits);
    assert forall|i: int, j: int| 0 <= i <= j < c.docs.len() implies #[trigger] c.docs[i]
        <= #[trigger] c.docs[j] by {
        assert(sorted[i].0 <= sorted[j].0);
    }
    if hits.contains(h) {
        lemma_by_doc_contains(hits, h);
        let p = choose|p: int| 0 <= p < sorted.len() && sorted[p] == h;
        assert(c.docs[p] == h.0);
    }
    assert forall|p: int| 0 <= p < c.docs.len() implies exists|i: int|
        0 <= i < hits.len() && (#[trigger] hits[i]).0 == #[trigger] c.docs[p] && c.scores[p] == m(
            Op::Mul,
            hits[i].1,
            boost,
        ) by {
        assert(sorted.contains(sorted[p]));
        lemma_by_doc_contains(hits, sorted[p]);
        let i = choose|i: int| 0 <= i < hits.len() && hits[i] == sorted[p];
        assert(hits[i].0 == c.docs[p]);
    }
}

/// Seeking passes over the documents before the target and stops at the first that is not
/// before it; documents and scores stay as they are. Moving on goes to the next document,
/// or stays behind the last.
pub proof fn seek_stops_at_the_first_not_before(c: Cursor, target: u32)
    requires
        c.at <= c.docs.len(),
        c.scores.len() == c.docs.len(),
    ensures
        ({
            let r = moved_to(c, target);
            &&& r.docs == c.docs
            &&& r.scores == c.scores
            &&& c.at <= r.at <= c.docs.len()
            &&& forall|i: int| c.at <= i < r.at ==> #[trigger] c.docs[i] < target
            &&& r.at < c.docs.len() ==> c.docs[r.at as int] >= target && doc_at(r)
                == c.docs[r.at as int] && score_at(r) == c.scores[r.at as int]
            &&& r.at == c.docs.len() ==> doc_at(r) == TERMINATED && score_at(r) == 0
        }),
        moved_on(c) == (Cursor {
            docs: c.docs,
            scores: c.scores,
            at: if c.at == c.docs.len() {
                c.at
            } else {
                c.at + 1
            },
        }),
{
    lemma_moved_to(c, target);
}

/// No document is found twice by a query that can be run.
proof fn lemma_hits_differ(m: Calc, w: Request, segment: Map<u32, FieldView>)
    requires
        runnable(w, segment),
        query_error(w, segment) is None,
    ensures
        forall|i: int, j: int|
            0 <= i < j < query_hits(m, w, segment).len() ==> (#[trigger] query_hits(
                m,
                w,
                segment,
            )[i]).0 != (#[trigger] query_hits(m, w, segment)[j]).0,
{
    if segment.dom().contains(w.field) {
        reader_laws::hits_are_of_different_documents(
            m,
            segment[w.field],
            w.query,
            w.k as nat,
            w.ef as nat,
        );
    }
}

/// A query that can be run explains each document by its own hit: the score of the document's
/// hit, times one. It refuses documents that are not among the hits, and queries whose
/// dimension is not that of the field. Fields that the segment lacks have no hits.
pub proof fn each_hit_is_explained_by_its_score(
    m: Calc,
    w: Request,
    segment: Map<u32, FieldView>,
    doc: u32,
)
    requires
        runnable(w, segment),
        doc < TERMINATED,
    ensures
        ({
            let r = explanation(m, w, segment, doc);
            let v = segment[w.field];
            let hits = reader::field_hits(m, v, w.query, w.k as nat, w.ef as nat);
            &&& !segment.dom().contains(w.field) ==> r == Err::<u32, VectorError>(
                VectorError::NotAmongResults { doc },
            )
            &&& segment.dom().contains(w.field) && w.query.len() != v.field.options.dimension
                ==> r == Err::<u32, VectorError>(
                VectorError::QueryDimension {
                    got: w.query.len() as usize,
                    expected: v.field.options.dimension,
                },
            )
            &&& segment.dom().contains(w.field) && w.query.len() == v.field.options.dimension ==> {
                &&& forall|i: int|
                    0 <= i < hits.len() && (#[trigger] hits[i]).0 == doc ==> r == Ok::<
                        u32,
                        VectorError,
                    >(m(Op::Mul, hits[i].1, ONE_BITS))
                &&& (forall|i: int| 0 <= i < hits.len() ==> (#[trigger] hits[i]).0 != doc) ==> r
                    == Err::<u32, VectorError>(VectorError::NotAmongResults { doc })
            }
        }),
{
    let hits = query_hits(m, w, segment);
    seek_finds_exactly_the_hits(m, hits, ONE_BITS, doc);
    if query_error(w, segment) is None {
        lemma_hits_differ(m, w, segment);
        assert forall|i: int| 0 <= i < hits.len() && (#[trigger] hits[i]).0 == doc implies
            explanation(m, w, segment, doc) == Ok::<u32, VectorError>(
            m(Op::Mul, hits[i].1, ONE_BITS),
        ) by {
            assert forall|j: int| 0 <= j < hits.len() && (#[trigger] hits[j]).0
                == doc implies i == j by {
                if i < j {
                    assert(hits[i].0 != hits[j].0);
                }
                if j < i {
                    assert(hits[j].0 != hits[i].0);
                }
            }
        }
    }
}

/// What a query runs with unless another width is set: twice as wide as it asks for documents,
/// but at least sixty-four. So it is never narrower than it asks for documents.
pub proof fn queries_are_wide_enough(k: int)
    requires
        0 <= k,
    ensures
        default_ef(k) >= 64,
        default_ef(k) >= 2 * k,
        default_ef(k) == 64 || default_ef(k) == 2 * k,
{
}

/// A query is run on its own field, with its own vector, number of documents and width. It is
/// refused only where the segment has the field and the vector has another dimension, and
/// finds nothing where the segment lacks the field.
pub proof fn queries_are_run_on_their_own_field(m: Calc, w: Request, segment: Map<u32, FieldView>)
    ensures
        ({
            let v = segment[w.field];
            let known = segment.dom().contains(w.field);
            &&& query_error(w, segment) is Some <==> known && w.query.len()
                != v.field.options.dimension
            &&& known ==> query_hits(m, w, segment) == reader::field_hits(
                m,
                v,
                w.query,
                w.k as nat,
                w.ef as nat,
            )
            &&& !known ==> query_hits(m, w, segment).len() == 0
        }),
{
}

} // verus!
