//! Collecting the vectors of a segment's documents.

use vstd::prelude::*;

use crate::arith;
use crate::arith::{Calc, Op};
use crate::error::VectorError;
use crate::file;
use crate::file::{write_vec_file, VectorFieldBundle};
use crate::graph::CompactHnswGraph;
use crate::hnsw;
use crate::hnsw::{extract_compact_graph, BuildPlan, BuiltPoint};
use crate::metric;
use crate::metric::normalize_flat_for_cosine;
use crate::options::{VectorDistance, VectorOptions};
use crate::rotation;
use crate::turboquant;
use crate::wide;
use crate::wide::WideOp;

verus! {

// ---------------------------------------------------------------------------
// What a writer holds
// ---------------------------------------------------------------------------

/// The vectors of one field so far, by document.
pub struct FieldDraft {
    pub field: u32,
    pub options: VectorOptions,
    pub vectors: Seq<Option<Seq<u32>>>,
}

/// The vectors of one field.
struct PerVectorFieldWriter {
    field: u32,
    options: VectorOptions,
    vectors: Vec<Option<Vec<u32>>>,
}

/// The components of a vector, if there is one.
pub open spec fn components(v: Option<Vec<u32>>) -> Option<Seq<u32>> {
    match v {
        Some(x) => Some(x@),
        None => None,
    }
}

impl PerVectorFieldWriter {
    spec fn draft(&self) -> FieldDraft {
        FieldDraft {
            field: self.field,
            options: self.options,
            vectors: self.vectors@.map_values(|v: Option<Vec<u32>>| components(v)),
        }
    }
}

/// Whether every vector of a field has the field's dimension.
pub open spec fn uniform(d: FieldDraft) -> bool {
    forall|doc: int|
        0 <= doc < d.vectors.len() && (#[trigger] d.vectors[doc]) is Some
            ==> d.vectors[doc]->0.len() == d.options.dimension
}

/// Collects dense vectors for all vector fields of a segment.
pub struct VectorFieldsWriter {
    per_field: Vec<Option<PerVectorFieldWriter>>,
}

spec fn slot_view(s: Option<PerVectorFieldWriter>) -> Option<FieldDraft> {
    match s {
        Some(w) => Some(w.draft()),
        None => None,
    }
}

impl View for VectorFieldsWriter {
    type V = Seq<Option<FieldDraft>>;

    /// The vector fields by field id.
    closed spec fn view(&self) -> Seq<Option<FieldDraft>> {
        self.per_field@.map_values(|s: Option<PerVectorFieldWriter>| slot_view(s))
    }
}

/// Whether every vector of every field has its field's dimension.
pub open spec fn all_uniform(w: Seq<Option<FieldDraft>>) -> bool {
    forall|i: int| 0 <= i < w.len() && (#[trigger] w[i]) is Some ==> uniform(w[i]->0)
}

/// A value of a document: its field, and its components if it is a vector.
pub type FieldValue = (u32, Option<Vec<u32>>);

/// Why a value cannot be added, if it cannot. Values of other fields are passed over.
pub open spec fn value_error(w: Seq<Option<FieldDraft>>, value: FieldValue) -> Option<
    VectorError,
> {
    if value.0 >= w.len() || w[value.0 as int] is None {
        None
    } else if value.1 is None {
        Some(VectorError::ExpectedVector { field: value.0 })
    } else if value.1->0@.len() != w[value.0 as int]->0.options.dimension {
        Some(
            VectorError::DimensionMismatch {
                expected: w[value.0 as int]->0.options.dimension,
                got: value.1->0@.len() as usize,
            },
        )
    } else {
        None
    }
}

/// Vectors by document with one more; documents in between have none.
pub open spec fn with_vector(
    vectors: Seq<Option<Seq<u32>>>,
    doc: int,
    v: Seq<u32>,
) -> Seq<Option<Seq<u32>>> {
    Seq::new(
        if doc < vectors.len() {
            vectors.len()
        } else {
            (doc + 1) as nat
        },
        |i: int|
            if i == doc {
                Some(v)
            } else if i < vectors.len() {
                vectors[i]
            } else {
                None
            },
    )
}

/// The fields with one more value.
pub open spec fn with_value(w: Seq<Option<FieldDraft>>, value: FieldValue, doc: int) -> Seq<
    Option<FieldDraft>,
> {
    if value.0 >= w.len() || w[value.0 as int] is None {
        w
    } else {
        let d = w[value.0 as int]->0;
        w.update(
            value.0 as int,
            Some(FieldDraft { vectors: with_vector(d.vectors, doc, value.1->0@), ..d }),
        )
    }
}

/// The fields with the values of a document, up to the first that cannot be added, and
/// why that cannot.
pub open spec fn with_values(
    w: Seq<Option<FieldDraft>>,
    values: Seq<FieldValue>,
    doc: int,
) -> (Seq<Option<FieldDraft>>, Option<VectorError>)
    decreases values.len(),
{
    if values.len() == 0 {
        (w, None)
    } else if value_error(w, values[0]) is Some {
        (w, value_error(w, values[0]))
    } else {
        with_values(with_value(w, values[0], doc), values.drop_first(), doc)
    }
}

// ---------------------------------------------------------------------------
// Collecting
// ---------------------------------------------------------------------------

impl PerVectorFieldWriter {
    /// Puts the vector of a document in its place.
    fn put(&mut self, doc: usize, v: &Vec<u32>)
        requires
            doc < usize::MAX,
        ensures
            final(self).draft() == (FieldDraft {
                vectors: with_vector(old(self).draft().vectors, doc as int, v@),
                ..old(self).draft()
            }),
    {
        let ghost before = self.draft().vectors;
        let ghost len = self.vectors@.len();
        while self.vectors.len() <= doc
            invariant
                self.field == old(self).field,
                self.options == old(self).options,
                before == old(self).draft().vectors,
                before.len() == len,
                len <= self.vectors@.len(),
                len > doc ==> self.vectors@.len() == len,
                len <= doc ==> self.vectors@.len() <= doc + 1,
                forall|i: int|
                    0 <= i < self.vectors@.len() ==> components(#[trigger] self.vectors@[i]) == (
                    if i < len {
                        before[i]
                    } else {
                        None
                    }),
            decreases doc + 1 - self.vectors@.len(),
        {
            self.vectors.push(None);
        }
        let mut copy: Vec<u32> = Vec::new();
        copy.extend_from_slice(v.as_slice());
        assert(copy@ =~= v@);
        self.vectors[doc] = Some(copy);
        assert(self.draft().vectors =~= with_vector(before, doc as int, v@));
    }
}

impl VectorFieldsWriter {
    #[verifier::type_invariant]
    spec fn consistent(&self) -> bool {
        all_uniform(self@)
    }

    /// A writer for a schema, given by the options of each field that is a vector
    /// field.
    pub fn for_schema(schema: &Vec<Option<VectorOptions>>) -> (r: Self)
        requires
            schema@.len() <= u32::MAX,
        ensures
            r@ == Seq::new(
                schema@.len(),
                |i: int|
                    match schema@[i] {
                        Some(options) => Some(
                            FieldDraft { field: i as u32, options, vectors: Seq::empty() },
                        ),
                        None => None,
                    },
            ),
    {
        let ghost goal = Seq::new(
            schema@.len(),
            |i: int|
                match schema@[i] {
                    Some(options) => Some(
                        FieldDraft { field: i as u32, options, vectors: Seq::empty() },
                    ),
                    None => None,
                },
        );
        let n: usize = schema.len();
        let mut per_field: Vec<Option<PerVectorFieldWriter>> = Vec::new();
        for i in 0..n
            invariant
                n == schema@.len(),
                n <= u32::MAX,
                goal.len() == n,
                forall|k: int|
                    0 <= k < n ==> #[trigger] goal[k] == match schema@[k] {
                        Some(options) => Some(
                            FieldDraft { field: k as u32, options, vectors: Seq::empty() },
                        ),
                        None => None,
                    },
                per_field@.len() == i,
                forall|k: int| 0 <= k < i ==> slot_view(#[trigger] per_field@[k]) == goal[k],
        {
            match schema[i] {
                Some(options) => {
                    let w = PerVectorFieldWriter {
                        field: i as u32,
                        options,
                        vectors: Vec::new(),
                    };
                    assert(w.draft().vectors =~= Seq::<Option<Seq<u32>>>::empty());
                    per_field.push(Some(w));
                },
                None => {
                    per_field.push(None);
                },
            }
        }
        assert(per_field@.map_values(|s: Option<PerVectorFieldWriter>| slot_view(s)) =~= goal);
        VectorFieldsWriter { per_field }
    }
}

spec fn slots_view(slots: Seq<Option<PerVectorFieldWriter>>) -> Seq<Option<FieldDraft>> {
    slots.map_values(|s: Option<PerVectorFieldWriter>| slot_view(s))
}

/// Adds a value.
fn put_value(
    per_field: &mut Vec<Option<PerVectorFieldWriter>>,
    value: &FieldValue,
    doc: usize,
) -> (r: Result<(), VectorError>)
    requires
        doc < usize::MAX,
    ensures
        match value_error(slots_view(old(per_field)@), *value) {
            Some(e) => r == Err::<(), VectorError>(e) && final(per_field)@ == old(per_field)@,
            None => r is Ok && slots_view(final(per_field)@) == with_value(
                slots_view(old(per_field)@),
                *value,
                doc as int,
            ),
        },
{
    let idx: usize = value.0 as usize;
    let ghost before = slots_view(per_field@);
    if idx >= per_field.len() {
        return Ok(());
    }
    assert(before[idx as int] == slot_view(per_field@[idx as int]));
    match &mut per_field[idx] {
        None => {},
        Some(w) => {
            match &value.1 {
                None => {
                    return Err(VectorError::ExpectedVector { field: value.0 });
                },
                Some(v) => {
                    if v.len() != w.options.dimension {
                        return Err(
                            VectorError::DimensionMismatch {
                                expected: w.options.dimension,
                                got: v.len(),
                            },
                        );
                    }
                    w.put(doc, v);
                },
            }
        },
    }
    assert(slots_view(per_field@) =~= with_value(before, *value, doc as int));
    Ok(())
}

proof fn lemma_with_value_uniform(w: Seq<Option<FieldDraft>>, value: FieldValue, doc: int)
    requires
        all_uniform(w),
        value_error(w, value) is None,
        0 <= doc,
    ensures
        all_uniform(with_value(w, value, doc)),
{
    let after = with_value(w, value, doc);
    assert forall|i: int| 0 <= i < after.len() && (#[trigger] after[i]) is Some implies uniform(
        after[i]->0,
    ) by {
        assert(w[i] is Some);
        if i == value.0 {
            let d = w[i]->0;
            let e = after[i]->0;
            assert(uniform(d));
            assert forall|x: int|
                0 <= x < e.vectors.len() && (
                #[trigger] e.vectors[x]) is Some implies e.vectors[x]->0.len()
                == e.options.dimension by {
                if x != doc {
                    assert(d.vectors[x] is Some);
                }
            }
        }
    }
}

/// Adds the values of a document, up to the first that cannot be added.
fn put_values(
    per_field: &mut Vec<Option<PerVectorFieldWriter>>,
    values: &Vec<FieldValue>,
    doc: usize,
) -> (r: Result<(), VectorError>)
    requires
        doc < usize::MAX,
        all_uniform(slots_view(old(per_field)@)),
    ensures
        (slots_view(final(per_field)@), r.err()) == with_values(
            slots_view(old(per_field)@),
            values@,
            doc as int,
        ),
        all_uniform(slots_view(final(per_field)@)),
{
    let n: usize = values.len();
    let ghost goal = with_values(slots_view(per_field@), values@, doc as int);
    assert(values@.skip(0) =~= values@);
    for i in 0..n
        invariant
            doc < usize::MAX,
            n == values@.len(),
            goal == with_values(slots_view(old(per_field)@), values@, doc as int),
            all_uniform(slots_view(per_field@)),
            with_values(slots_view(per_field@), values@.skip(i as int), doc as int) == goal,
    {
        let ghost before = slots_view(per_field@);
        let ghost left = values@.skip(i as int);
        assert(left[0] == values@[i as int]);
        assert(left.drop_first() =~= values@.skip(i + 1));
        match put_value(per_field, &values[i], doc) {
            Ok(()) => {
                proof {
                    lemma_with_value_uniform(before, values@[i as int], doc as int);
                }
            },
            Err(e) => {
                return Err(e);
            },
        }
    }
    Ok(())
}

impl VectorFieldsWriter {
    /// Adds the vectors of a document. Where one cannot be added, those before it stay.
    pub fn add_document(&mut self, values: &Vec<FieldValue>, doc_id: u32) -> (r: Result<
        (),
        VectorError,
    >)
        requires
            doc_id < usize::MAX,
        ensures
            (final(self)@, r.err()) == with_values(old(self)@, values@, doc_id as int),
    {
        proof {
            use_type_invariant(&*self);
        }
        let mut per_field: Vec<Option<PerVectorFieldWriter>> = Vec::new();
        std::mem::swap(&mut per_field, &mut self.per_field);
        let r = put_values(&mut per_field, values, doc_id as usize);
        self.per_field = per_field;
        r
    }
}

// ---------------------------------------------------------------------------
// Memory
// ---------------------------------------------------------------------------

/// Calls `Vec::capacity`: how many components the vector has room for without asking
/// for more, which is at least as many as it holds. How much more is the allocator's
/// choice.
#[verifier::external_body]
fn capacity(v: &Vec<u32>) -> (r: usize)
    ensures
        r >= v@.len(),
{
    v.capacity()
}

/// The smaller of a number and the largest that fits.
pub open spec fn clamped(x: int) -> usize {
    if x > usize::MAX {
        usize::MAX
    } else {
        x as usize
    }
}

/// The sum of some numbers.
pub open spec fn sum_of(values: Seq<usize>) -> int
    decreases values.len(),
{
    if values.len() == 0 {
        0
    } else {
        sum_of(values.drop_last()) + values.last()
    }
}

/// Bytes that vectors with room for so many components take, as far as the number fits.
pub fn bytes_of_capacities(capacities: &Vec<usize>) -> (r: usize)
    ensures
        r == clamped(4 * sum_of(capacities@)),
{
    let n: usize = capacities.len();
    let mut total: usize = 0;
    for i in 0..n
        invariant
            n == capacities@.len(),
            0 <= sum_of(capacities@.take(i as int)),
            total == clamped(4 * sum_of(capacities@.take(i as int))),
    {
        assert(capacities@.take(i + 1).drop_last() =~= capacities@.take(i as int));
        let c: usize = capacities[i];
        let bytes: usize = if c > usize::MAX / 4 {
            usize::MAX
        } else {
            4 * c
        };
        total = if bytes > usize::MAX - total {
            usize::MAX
        } else {
            total + bytes
        };
    }
    assert(capacities@.take(n as int) =~= capacities@);
    total
}

/// Number of components of the first `n` vectors of a field.
pub open spec fn held(vectors: Seq<Option<Seq<u32>>>, n: nat) -> nat
    decreases n,
{
    if n == 0 {
        0
    } else {
        held(vectors, (n - 1) as nat) + match vectors[n - 1] {
            Some(v) => v.len(),
            None => 0,
        }
    }
}

/// Number of components of the first `n` fields.
pub open spec fn all_held(w: Seq<Option<FieldDraft>>, n: nat) -> nat
    decreases n,
{
    if n == 0 {
        0
    } else {
        all_held(w, (n - 1) as nat) + match w[n - 1] {
            Some(d) => held(d.vectors, d.vectors.len()),
            None => 0,
        }
    }
}

/// The vectors of the first `n` documents of a field that have one.
pub open spec fn stored(vectors: Seq<Option<Seq<u32>>>, n: nat) -> Seq<Seq<u32>>
    decreases n,
{
    if n == 0 {
        Seq::empty()
    } else {
        let before = stored(vectors, (n - 1) as nat);
        match vectors[n - 1] {
            Some(v) => before.push(v),
            None => before,
        }
    }
}

/// The vectors of the first `n` fields.
pub open spec fn all_stored(w: Seq<Option<FieldDraft>>, n: nat) -> Seq<Seq<u32>>
    decreases n,
{
    if n == 0 {
        Seq::empty()
    } else {
        all_stored(w, (n - 1) as nat) + match w[n - 1] {
            Some(d) => stored(d.vectors, d.vectors.len()),
            None => Seq::empty(),
        }
    }
}

/// Whether a vector with these components can have such a capacity: whether one says so when
/// it is asked.
pub closed spec fn is_capacity(components: Seq<u32>, c: usize) -> bool {
    exists|v: &Vec<u32>| v@ == components && #[trigger] call_ensures(capacity, (v,), c)
}

/// Whether there is one capacity for each vector, its own, with room for its components.
pub open spec fn has_capacities(capacities: Seq<usize>, vectors: Seq<Seq<u32>>) -> bool {
    &&& capacities.len() == vectors.len()
    &&& forall|i: int|
        0 <= i < vectors.len() ==> #[trigger] capacities[i] >= vectors[i].len() && is_capacity(
            vectors[i],
            capacities[i],
        )
}

impl PerVectorFieldWriter {
    /// Appends the capacities of the field's vectors.
    fn put_capacities(&self, out: &mut Vec<usize>)
        ensures
            final(out)@.len() >= old(out)@.len(),
            final(out)@.take(old(out)@.len() as int) == old(out)@,
            has_capacities(
                final(out)@.skip(old(out)@.len() as int),
                stored(self.draft().vectors, self.draft().vectors.len()),
            ),
            sum_of(final(out)@) >= sum_of(old(out)@) + held(
                self.draft().vectors,
                self.draft().vectors.len(),
            ),
    {
        let ghost vectors = self.draft().vectors;
        let ghost start = sum_of(out@);
        let ghost first = out@;
        assert(first.take(first.len() as int) =~= first);
        for i in 0..self.vectors.len()
            invariant
                vectors == self.draft().vectors,
                out@.len() >= first.len(),
                out@.take(first.len() as int) == first,
                has_capacities(out@.skip(first.len() as int), stored(vectors, i as nat)),
                sum_of(out@) >= start + held(vectors, i as nat),
        {
            assert(vectors[i as int] == components(self.vectors@[i as int]));
            match &self.vectors[i] {
                Some(v) => {
                    let measure = capacity;
                    let c: usize = measure(v);
                    assert(is_capacity(v@, c));
                    let ghost before = out@;
                    out.push(c);
                    assert(out@.drop_last() =~= before);
                    assert(out@.take(first.len() as int) =~= before.take(first.len() as int));
                    assert(out@.skip(first.len() as int) =~= before.skip(first.len() as int).push(
                        c,
                    ));
                },
                None => {},
            }
        }
    }
}

impl VectorFieldsWriter {
    /// Bytes that the collected vectors take: what they hold, and what was set aside
    /// for them beyond that, counted once for each vector.
    pub fn mem_usage(&self) -> (r: usize)
        ensures
            r >= clamped((4 * all_held(self@, self@.len())) as int),
            exists|capacities: Seq<usize>| #[trigger]
                has_capacities(capacities, all_stored(self@, self@.len())) && r == clamped(
                    4 * sum_of(capacities),
                ),
    {
        let mut capacities: Vec<usize> = Vec::new();
        for i in 0..self.per_field.len()
            invariant
                sum_of(capacities@) >= all_held(self@, i as nat),
                has_capacities(capacities@, all_stored(self@, i as nat)),
        {
            assert(self@[i as int] == slot_view(self.per_field@[i as int]));
            let ghost before = capacities@;
            match &self.per_field[i] {
                Some(w) => {
                    w.put_capacities(&mut capacities);
                    assert(capacities@ =~= before + capacities@.skip(before.len() as int));
                },
                None => {},
            }
        }
        bytes_of_capacities(&capacities)
    }
}

// ---------------------------------------------------------------------------
// Writing
// ---------------------------------------------------------------------------

/// The first document from `doc` on that has no vector, as an error.
pub open spec fn gap_error(d: FieldDraft, doc: nat, max_doc: nat) -> Option<VectorError>
    decreases max_doc - doc,
{
    if doc >= max_doc {
        None
    } else if doc >= d.vectors.len() || d.vectors[doc as int] is None {
        Some(VectorError::MissingVector { doc: doc as u32, field: d.field })
    } else {
        gap_error(d, doc + 1, max_doc)
    }
}

/// The vectors of the first `n` documents, one behind the other.
pub open spec fn joined(vectors: Seq<Option<Seq<u32>>>, n: nat) -> Seq<u32>
    decreases n,
{
    if n == 0 {
        Seq::empty()
    } else {
        joined(vectors, (n - 1) as nat) + vectors[n - 1]->0
    }
}

/// The rows of a field as they are written: of unit length in cosine fields.
pub open spec fn rows_to_write(m: Calc, d: FieldDraft, max_doc: nat) -> Seq<u32> {
    let flat = joined(d.vectors, max_doc);
    if d.options.distance == VectorDistance::Cosine {
        metric::normalized(m, flat, d.options.dimension as nat)
    } else {
        flat
    }
}

/// The vector fields among the first `n` fields.
pub open spec fn drafts(w: Seq<Option<FieldDraft>>, n: nat) -> Seq<FieldDraft>
    decreases n,
{
    if n == 0 {
        Seq::empty()
    } else {
        let before = drafts(w, (n - 1) as nat);
        match w[n - 1] {
            Some(d) => before.push(d),
            None => before,
        }
    }
}

/// The first gap in the fields from `i` on, as an error.
pub open spec fn gaps_error(w: Seq<Option<FieldDraft>>, i: nat, max_doc: nat) -> Option<
    VectorError,
>
    decreases w.len() - i,
{
    if i >= w.len() {
        None
    } else if w[i as int] is Some && gap_error(w[i as int]->0, 0, max_doc) is Some {
        gap_error(w[i as int]->0, 0, max_doc)
    } else {
        gaps_error(w, i + 1, max_doc)
    }
}

/// Whether so many rows of a field can be counted.
pub open spec fn countable(d: FieldDraft, max_doc: u32) -> bool {
    max_doc * d.options.dimension <= usize::MAX
}

/// Whether the rows of a field can be coded.
pub open spec fn writable(d: FieldDraft, max_doc: u32) -> bool {
    let padded = turboquant::padded_of(d.options.dimension as nat);
    &&& turboquant::paddable(d.options.dimension as int)
    &&& max_doc > 0 ==> rotation::has_rotation(padded as int)
    &&& d.options.distance == VectorDistance::Cosine ==> d.options.dimension > 0
}

/// The rows of one field, ready for writing.
struct FieldRows {
    field: u32,
    options: VectorOptions,
    flat: Vec<u32>,
}

impl PerVectorFieldWriter {
    /// The first of the documents without a vector, as an error.
    fn gap(&self, max_doc: u32) -> (r: Option<VectorError>)
        ensures
            r == gap_error(self.draft(), 0, max_doc as nat),
    {
        let ghost d = self.draft();
        for doc in 0..max_doc
            invariant
                d == self.draft(),
                gap_error(d, 0, max_doc as nat) == gap_error(d, doc as nat, max_doc as nat),
        {
            let i: usize = doc as usize;
            if i >= self.vectors.len() {
                return Some(VectorError::MissingVector { doc, field: self.field });
            }
            assert(d.vectors[doc as int] == components(self.vectors@[doc as int]));
            if self.vectors[i].is_none() {
                return Some(VectorError::MissingVector { doc, field: self.field });
            }
        }
        None
    }

    /// The rows of a field without a gap.
    fn rows<A: Fn(Op, u32, u32) -> u32>(&self, arith: &A, max_doc: u32) -> (r: FieldRows)
        requires
            arith::is_arithmetic(*arith),
            uniform(self.draft()),
            gap_error(self.draft(), 0, max_doc as nat) is None,
            writable(self.draft(), max_doc),
        ensures
            r.field == self.field,
            r.options == self.options,
            r.flat@ == rows_to_write(arith::calc(*arith), self.draft(), max_doc as nat),
            r.flat@.len() == max_doc * self.options.dimension,
    {
        let ghost d = self.draft();
        let dim: usize = self.options.dimension;
        let mut flat: Vec<u32> = Vec::new();
        proof {
            lemma_gap_error(d, 0, max_doc as nat);
        }
        for doc in 0..max_doc
            invariant
                d == self.draft(),
                uniform(d),
                dim == d.options.dimension,
                forall|x: int|
                    0 <= x < max_doc ==> x < d.vectors.len() && (#[trigger] d.vectors[x]) is Some,
                flat@ == joined(d.vectors, doc as nat),
                flat@.len() == doc * dim,
        {
            assert(d.vectors[doc as int] is Some);
            assert(d.vectors[doc as int] == components(self.vectors@[doc as int]));
            match &self.vectors[doc as usize] {
                Some(v) => {
                    let ghost before = flat@;
                    flat.extend_from_slice(v.as_slice());
                    assert(flat@ =~= before + v@);
                    assert((doc + 1) * dim == doc * dim + dim) by (nonlinear_arith);
                },
                None => {},
            }
        }
        normalize_flat_for_cosine(arith, &mut flat, dim, self.options.distance);
        FieldRows { field: self.field, options: self.options, flat }
    }
}

impl VectorFieldsWriter {
    /// The first gap among the documents, in the order of the fields, as an error.
    pub fn first_gap(&self, max_doc: u32) -> (r: Option<VectorError>)
        ensures
            r == gaps_error(self@, 0, max_doc as nat),
    {
        for i in 0..self.per_field.len()
            invariant
                self@.len() == self.per_field@.len(),
                gaps_error(self@, 0, max_doc as nat) == gaps_error(
                    self@,
                    i as nat,
                    max_doc as nat,
                ),
        {
            assert(self@[i as int] == slot_view(self.per_field@[i as int]));
            match &self.per_field[i] {
                Some(w) => {
                    let gap = w.gap(max_doc);
                    if gap.is_some() {
                        return gap;
                    }
                },
                None => {},
            }
        }
        None
    }

    /// The rows of all vector fields, which have no gap.
    fn all_rows<A: Fn(Op, u32, u32) -> u32>(&self, arith: &A, max_doc: u32) -> (r: Vec<FieldRows>)
        requires
            arith::is_arithmetic(*arith),
            gaps_error(self@, 0, max_doc as nat) is None,
            forall|i: int|
                0 <= i < self@.len() && (#[trigger] self@[i]) is Some ==> countable(
                    self@[i]->0,
                    max_doc,
                ) && writable(self@[i]->0, max_doc),
        ensures
            rows_match(arith::calc(*arith), r@, drafts(self@, self@.len()), max_doc),
    {
        proof {
            use_type_invariant(self);
        }
        let ghost m = arith::calc(*arith);
        let n: usize = self.per_field.len();
        let mut out: Vec<FieldRows> = Vec::new();
        for i in 0..n
            invariant
                arith::is_arithmetic(*arith),
                m == arith::calc(*arith),
                n == self@.len(),
                n == self.per_field@.len(),
                all_uniform(self@),
                forall|i: int|
                    0 <= i < self@.len() && (#[trigger] self@[i]) is Some ==> countable(
                        self@[i]->0,
                        max_doc,
                    ) && writable(self@[i]->0, max_doc),
                gaps_error(self@, i as nat, max_doc as nat) is None,
                rows_match(m, out@, drafts(self@, i as nat), max_doc),
        {
            assert(self@[i as int] == slot_view(self.per_field@[i as int]));
            match &self.per_field[i] {
                Some(w) => out.push(w.rows(arith, max_doc)),
                None => {},
            }
        }
        out
    }
}

/// Whether rows are those of the given fields.
spec fn rows_match(m: Calc, rows: Seq<FieldRows>, fields: Seq<FieldDraft>, max_doc: u32) -> bool {
    &&& rows.len() == fields.len()
    &&& forall|i: int|
        0 <= i < rows.len() ==> {
            let r = #[trigger] rows[i];
            &&& r.field == fields[i].field
            &&& r.options == fields[i].options
            &&& r.flat@ == rows_to_write(m, fields[i], max_doc as nat)
            &&& r.flat@.len() == max_doc * fields[i].options.dimension
            &&& countable(fields[i], max_doc)
            &&& writable(fields[i], max_doc)
        }
}

/// Whether options are stored in the same way each time.
pub open spec fn is_encoder<J: Fn(&VectorOptions) -> Option<Vec<u8>>>(j: J) -> bool {
    &&& forall|o: &VectorOptions| #[trigger] j.requires((o,))
    &&& forall|o: &VectorOptions, r1: Option<Vec<u8>>, r2: Option<Vec<u8>>| #[trigger]
        j.ensures((o,), r1) && #[trigger] j.ensures((o,), r2) ==> stored_options(r1)
            == stored_options(r2)
}

/// The bytes of stored options, if there are any.
pub open spec fn stored_options(r: Option<Vec<u8>>) -> Option<Seq<u8>> {
    match r {
        Some(b) => Some(b@),
        None => None,
    }
}

/// How options are stored.
pub open spec fn encoder<J: Fn(&VectorOptions) -> Option<Vec<u8>>>(j: J) -> spec_fn(
    VectorOptions,
) -> Option<Seq<u8>> {
    |o: VectorOptions|
        {
            let r = choose|r: Option<Vec<u8>>| j.ensures((&o,), r);
            stored_options(r)
        }
}

/// Whether a field is handed over for writing as it was collected.
pub open spec fn hands_over<B: Fn(&BuildPlan, &[u32]) -> Vec<BuiltPoint>>(
    f: VectorFieldBundle,
    d: FieldDraft,
    max_doc: u32,
    m: Calc,
    json: spec_fn(VectorOptions) -> Option<Seq<u8>>,
    build: B,
) -> bool {
    &&& f.field_id == d.field
    &&& f.options == d.options
    &&& json(d.options) == Some(f.options_json@)
    &&& f.num_docs == max_doc
    &&& f.flat@ == rows_to_write(m, d, max_doc as nat)
    &&& hnsw::built_by(build, d.options, max_doc, f.flat@, f.graph@)
}

/// Whether bundles are handed over as the fields were collected.
pub open spec fn all_handed_over<B: Fn(&BuildPlan, &[u32]) -> Vec<BuiltPoint>>(
    bundles: Seq<VectorFieldBundle>,
    fields: Seq<FieldDraft>,
    max_doc: u32,
    m: Calc,
    json: spec_fn(VectorOptions) -> Option<Seq<u8>>,
    build: B,
) -> bool {
    &&& bundles.len() == fields.len()
    &&& forall|i: int|
        0 <= i < bundles.len() ==> hands_over(
            #[trigger] bundles[i],
            fields[i],
            max_doc,
            m,
            json,
            build,
        )
}

/// Whether the options of every field can be stored.
pub open spec fn all_storable(
    fields: Seq<FieldDraft>,
    json: spec_fn(VectorOptions) -> Option<Seq<u8>>,
) -> bool {
    forall|i: int| 0 <= i < fields.len() ==> json((#[trigger] fields[i]).options) is Some
}

/// Hands a field over for writing.
fn bundle<
    J: Fn(&VectorOptions) -> Option<Vec<u8>>,
    B: Fn(&BuildPlan, &[u32]) -> Vec<BuiltPoint>,
>(rows: FieldRows, max_doc: u32, options_json: &J, build: &B) -> (r: Option<VectorFieldBundle>)
    requires
        is_encoder(*options_json),
        hnsw::is_builder(*build),
        rows.flat@.len() == max_doc * rows.options.dimension,
        max_doc * rows.options.dimension <= usize::MAX,
    ensures
        r is None <==> encoder(*options_json)(rows.options) is None,
        r is Some ==> {
            let f = r->0;
            &&& f.field_id == rows.field
            &&& f.options == rows.options
            &&& encoder(*options_json)(rows.options) == Some(f.options_json@)
            &&& f.num_docs == max_doc
            &&& f.flat@ == rows.flat@
            &&& hnsw::built_by(*build, rows.options, max_doc, f.flat@, f.graph@)
        },
{
    let json: Vec<u8> = match options_json(&rows.options) {
        Some(b) => b,
        None => return None,
    };
    let graph: CompactHnswGraph = match extract_compact_graph(
        &rows.options,
        max_doc,
        rows.flat.as_slice(),
        build,
    ) {
        Ok(g) => g,
        Err(_) => vstd::pervasive::unreached(),
    };
    Some(
        VectorFieldBundle {
            field_id: rows.field,
            options: rows.options,
            options_json: json,
            num_docs: max_doc,
            flat: rows.flat,
            graph,
        },
    )
}

impl VectorFieldsWriter {
    /// The bytes of the file with the vectors of the first `max_doc` documents. Each
    /// of these must have a vector in every vector field.
    pub fn serialize<
        A: Fn(Op, u32, u32) -> u32,
        W: Fn(WideOp, u64, u64) -> u64,
        J: Fn(&VectorOptions) -> Option<Vec<u8>>,
        B: Fn(&BuildPlan, &[u32]) -> Vec<BuiltPoint>,
    >(
        &self,
        arith: &A,
        wide: &W,
        options_json: &J,
        build: &B,
        max_doc: u32,
    ) -> (r: Result<Vec<u8>, VectorError>)
        requires
            arith::is_arithmetic(*arith),
            wide::is_arithmetic(*wide),
            is_encoder(*options_json),
            hnsw::is_builder(*build),
            forall|i: int|
                0 <= i < self@.len() && (#[trigger] self@[i]) is Some ==> countable(
                    self@[i]->0,
                    max_doc,
                ),
            gaps_error(self@, 0, max_doc as nat) is None ==> forall|i: int|
                0 <= i < self@.len() && (#[trigger] self@[i]) is Some ==> writable(
                    self@[i]->0,
                    max_doc,
                ),
        ensures
            match r {
                Ok(b) => gaps_error(self@, 0, max_doc as nat) is None && all_storable(
                    drafts(self@, self@.len()),
                    encoder(*options_json),
                ) && exists|bundles: Seq<VectorFieldBundle>|
                    b@ == #[trigger] file::vec_file(
                        arith::calc(*arith),
                        wide::calc(*wide),
                        bundles,
                    ) && all_handed_over(
                        bundles,
                        drafts(self@, self@.len()),
                        max_doc,
                        arith::calc(*arith),
                        encoder(*options_json),
                        *build,
                    ),
                Err(e) => if gaps_error(self@, 0, max_doc as nat) is Some {
                    gaps_error(self@, 0, max_doc as nat) == Some(e)
                } else {
                    e == VectorError::OptionsUnwritable && !all_storable(
                        drafts(self@, self@.len()),
                        encoder(*options_json),
                    )
                },
            },
    {
        let ghost m = arith::calc(*arith);
        let ghost json = encoder(*options_json);
        let ghost fields = drafts(self@, self@.len());
        match self.first_gap(max_doc) {
            Some(e) => return Err(e),
            None => {},
        }
        let mut rest: Vec<FieldRows> = self.all_rows(arith, max_doc);
        let ghost rows = rest@;
        let n: usize = rest.len();
        // Taken off the end and put down in reverse, to be turned over once more below.
        let mut turned: Vec<FieldRows> = Vec::new();
        while rest.len() > 0
            invariant
                n == rows.len(),
                rest@.len() + turned@.len() == n,
                forall|i: int| 0 <= i < rest@.len() ==> #[trigger] rest@[i] == rows[i],
                forall|i: int| 0 <= i < turned@.len() ==> #[trigger] turned@[i] == rows[n - 1 - i],
            decreases rest@.len(),
        {
            match rest.pop() {
                Some(f) => turned.push(f),
                None => {},
            }
        }
        let mut bundles: Vec<VectorFieldBundle> = Vec::new();
        while bundles.len() < n
            invariant
                is_encoder(*options_json),
                hnsw::is_builder(*build),
                json == encoder(*options_json),
                fields == drafts(self@, self@.len()),
                gaps_error(self@, 0, max_doc as nat) is None,
                n == rows.len(),
                rows_match(m, rows, fields, max_doc),
                bundles@.len() + turned@.len() == n,
                forall|i: int| 0 <= i < turned@.len() ==> #[trigger] turned@[i] == rows[n - 1 - i],
                all_handed_over(
                    bundles@,
                    fields.take(bundles@.len() as int),
                    max_doc,
                    m,
                    json,
                    *build,
                ),
                forall|i: int| 0 <= i < bundles@.len() ==> file::encodable(#[trigger] bundles@[i]),
            decreases n - bundles@.len(),
        {
            let ghost i = bundles@.len() as int;
            let row: FieldRows = match turned.pop() {
                Some(f) => f,
                None => vstd::pervasive::unreached(),
            };
            assert(row == rows[i]);
            match bundle(row, max_doc, options_json, build) {
                Some(f) => {
                    assert(f.field_id == fields[i].field && f.options == fields[i].options);
                    assert(json(fields[i].options) == Some(f.options_json@));
                    assert(f.flat@ == rows_to_write(m, fields[i], max_doc as nat));
                    assert(hands_over(f, fields[i], max_doc, m, json, *build));
                    assert(file::encodable(f));
                    let ghost before = bundles@;
                    bundles.push(f);
                    proof {
                        let done = fields.take(i + 1);
                        assert forall|j: int| 0 <= j < bundles@.len() implies hands_over(
                            #[trigger] bundles@[j],
                            done[j],
                            max_doc,
                            m,
                            json,
                            *build,
                        ) by {
                            if j < i {
                                assert(hands_over(
                                    before[j],
                                    fields.take(i)[j],
                                    max_doc,
                                    m,
                                    json,
                                    *build,
                                ));
                            }
                        }
                    }
                },
                None => {
                    assert(json(fields[i].options) is None);
                    return Err(VectorError::OptionsUnwritable);
                },
            }
        }
        assert(fields.take(n as int) =~= fields);
        assert forall|i: int| 0 <= i < fields.len() implies json(
            (#[trigger] fields[i]).options,
        ) is Some by {
            assert(hands_over(bundles@[i], fields[i], max_doc, m, json, *build));
        }
        Ok(write_vec_file(arith, wide, &bundles))
    }
}

// ---------------------------------------------------------------------------
// Laws
// ---------------------------------------------------------------------------

/// Whether each of the first `max_doc` documents has a vector in a field.
pub open spec fn complete(d: FieldDraft, max_doc: nat) -> bool {
    max_doc <= d.vectors.len() && forall|doc: int|
        0 <= doc < max_doc ==> (#[trigger] d.vectors[doc]) is Some
}

proof fn lemma_gap_error(d: FieldDraft, doc: nat, max_doc: nat)
    ensures
        gap_error(d, doc, max_doc) is None <==> forall|x: int|
            doc <= x < max_doc ==> x < d.vectors.len() && (#[trigger] d.vectors[x]) is Some,
    decreases max_doc - doc,
{
    if doc < max_doc {
        if doc >= d.vectors.len() || d.vectors[doc as int] is None {
            assert(!(doc < d.vectors.len() && d.vectors[doc as int] is Some));
        } else {
            lemma_gap_error(d, doc + 1, max_doc);
            if gap_error(d, doc, max_doc) is None {
                assert forall|x: int| doc <= x < max_doc implies x < d.vectors.len() && (
                #[trigger] d.vectors[x]) is Some by {
                    if x > doc {
                        assert((doc + 1) as int <= x);
                    }
                }
            }
        }
    }
}

proof fn lemma_gaps_error(w: Seq<Option<FieldDraft>>, i: nat, max_doc: nat)
    ensures
        gaps_error(w, i, max_doc) is None <==> forall|k: int|
            i <= k < w.len() && (#[trigger] w[k]) is Some ==> gap_error(w[k]->0, 0, max_doc)
                is None,
    decreases w.len() - i,
{
    if i < w.len() {
        lemma_gaps_error(w, i + 1, max_doc);
    }
}

/// The collected vectors can be written if and only if each document up to the last has
/// one in every vector field.
pub proof fn complete_fields_have_no_gap(w: Seq<Option<FieldDraft>>, max_doc: nat)
    ensures
        gaps_error(w, 0, max_doc) is None <==> forall|i: int|
            0 <= i < w.len() && (#[trigger] w[i]) is Some ==> complete(w[i]->0, max_doc),
{
    lemma_gaps_error(w, 0, max_doc);
    assert forall|i: int| 0 <= i < w.len() && (#[trigger] w[i]) is Some implies (gap_error(
        w[i]->0,
        0,
        max_doc,
    ) is None <==> complete(w[i]->0, max_doc)) by {
        let d = w[i]->0;
        lemma_gap_error(d, 0, max_doc);
        if gap_error(d, 0, max_doc) is None && max_doc > 0 {
            assert(d.vectors[max_doc - 1] is Some || max_doc - 1 >= d.vectors.len());
        }
    }
}

pub(crate) proof fn lemma_joined_len(vectors: Seq<Option<Seq<u32>>>, dim: nat, n: nat)
    requires
        n <= vectors.len(),
        forall|doc: int| 0 <= doc < n ==> (#[trigger] vectors[doc])->0.len() == dim,
    ensures
        joined(vectors, n).len() == n * dim,
    decreases n,
{
    if n > 0 {
        lemma_joined_len(vectors, dim, (n - 1) as nat);
        assert(vectors[n - 1]->0.len() == dim);
        assert((n - 1) * dim + dim == n * dim) by (nonlinear_arith);
    } else {
        assert(n * dim == 0) by (nonlinear_arith)
            requires
                n == 0,
        ;
    }
}

/// The rows that are written are the vectors of the documents, each in its place.
pub proof fn joined_rows_are_the_vectors(
    vectors: Seq<Option<Seq<u32>>>,
    dim: nat,
    n: nat,
    doc: int,
)
    requires
        n <= vectors.len(),
        0 <= doc < n,
        forall|x: int| 0 <= x < n ==> (#[trigger] vectors[x])->0.len() == dim,
    ensures
        turboquant::row_at(joined(vectors, n), dim, doc) == vectors[doc]->0,
    decreases n,
{
    let init = joined(vectors, (n - 1) as nat);
    let last = vectors[n - 1]->0;
    lemma_joined_len(vectors, dim, (n - 1) as nat);
    turboquant::lemma_row_range(n as int, dim as int, doc);
    if doc < n - 1 {
        turboquant::lemma_row_range(n - 1, dim as int, doc);
        joined_rows_are_the_vectors(vectors, dim, (n - 1) as nat, doc);
        assert(turboquant::row_at(joined(vectors, n), dim, doc) =~= turboquant::row_at(
            init,
            dim,
            doc,
        ));
    } else {
        assert(turboquant::row_at(joined(vectors, n), dim, doc) =~= last);
    }
}

/// A value that can be added is found at its field and document; the vectors of other
/// fields and documents stay as they were.
pub proof fn added_vector_is_kept(
    w: Seq<Option<FieldDraft>>,
    value: FieldValue,
    doc: int,
    field: int,
    other: int,
)
    requires
        0 <= doc,
        0 <= other,
        0 <= field < w.len(),
        w[field] is Some,
        value_error(w, value) is None,
    ensures
        ({
            let after = with_value(w, value, doc);
            &&& after.len() == w.len()
            &&& after[field] is Some
            &&& after[field]->0.options == w[field]->0.options
            &&& value.0 == field ==> doc < after[field]->0.vectors.len()
                && after[field]->0.vectors[doc] == Some(value.1->0@)
            &&& (value.0 != field || other != doc) && other < w[field]->0.vectors.len() ==> other
                < after[field]->0.vectors.len() && after[field]->0.vectors[other]
                == w[field]->0.vectors[other]
        }),
{
}

/// Writing is refused for the first gap: in the first vector field that lacks a vector, the
/// first document without one. The error names this document and this field.
pub proof fn the_first_gap_is_reported(w: Seq<Option<FieldDraft>>, max_doc: nat) -> (gap: (
    int,
    int,
))
    requires
        gaps_error(w, 0, max_doc) is Some,
        max_doc <= u32::MAX,
    ensures
        ({
            let (i, doc) = gap;
            let d = w[i]->0;
            &&& 0 <= i < w.len() && w[i] is Some
            &&& 0 <= doc < max_doc
            &&& doc >= d.vectors.len() || d.vectors[doc] is None
            &&& forall|x: int|
                0 <= x < doc ==> x < d.vectors.len() && (#[trigger] d.vectors[x]) is Some
            &&& forall|k: int|
                0 <= k < i && (#[trigger] w[k]) is Some ==> complete(w[k]->0, max_doc)
            &&& gaps_error(w, 0, max_doc) == Some(
                VectorError::MissingVector { doc: doc as u32, field: d.field },
            )
        }),
{
    let i = lemma_first_gap(w, 0, max_doc);
    let doc = lemma_first_missing(w[i]->0, 0, max_doc);
    assert forall|k: int| 0 <= k < i && (#[trigger] w[k]) is Some implies complete(
        w[k]->0,
        max_doc,
    ) by {
        let d = w[k]->0;
        lemma_gap_error(d, 0, max_doc);
        if max_doc > 0 {
            assert(d.vectors[max_doc - 1] is Some || max_doc - 1 >= d.vectors.len());
        }
    }
    (i, doc)
}

proof fn lemma_first_gap(w: Seq<Option<FieldDraft>>, from: nat, max_doc: nat) -> (i: int)
    requires
        gaps_error(w, from, max_doc) is Some,
    ensures
        from <= i < w.len(),
        w[i] is Some,
        gap_error(w[i]->0, 0, max_doc) == gaps_error(w, from, max_doc),
        forall|k: int|
            from <= k < i && (#[trigger] w[k]) is Some ==> gap_error(w[k]->0, 0, max_doc)
                is None,
    decreases w.len() - from,
{
    if w[from as int] is Some && gap_error(w[from as int]->0, 0, max_doc) is Some {
        from as int
    } else {
        lemma_first_gap(w, from + 1, max_doc)
    }
}

proof fn lemma_first_missing(d: FieldDraft, from: nat, max_doc: nat) -> (doc: int)
    requires
        gap_error(d, from, max_doc) is Some,
    ensures
        from <= doc < max_doc,
        doc >= d.vectors.len() || d.vectors[doc] is None,
        forall|x: int|
            from <= x < doc ==> x < d.vectors.len() && (#[trigger] d.vectors[x]) is Some,
        gap_error(d, from, max_doc) == Some(
            VectorError::MissingVector { doc: doc as u32, field: d.field },
        ),
    decreases max_doc - from,
{
    if from >= d.vectors.len() || d.vectors[from as int] is None {
        from as int
    } else {
        lemma_first_missing(d, from + 1, max_doc)
    }
}

/// The vector fields that are written are all vector fields, in their order.
pub proof fn every_vector_field_is_written(w: Seq<Option<FieldDraft>>, n: nat)
    requires
        n < w.len(),
    ensures
        drafts(w, 0).len() == 0,
        w[n as int] is Some ==> drafts(w, n + 1) == drafts(w, n).push(w[n as int]->0),
        w[n as int] is None ==> drafts(w, n + 1) == drafts(w, n),
{
}

/// Memory is counted for every vector that was collected, and only for those: for each
/// document of each field that has one.
pub proof fn memory_is_counted_for_every_vector(
    w: Seq<Option<FieldDraft>>,
    vectors: Seq<Option<Seq<u32>>>,
    n: nat,
    values: Seq<usize>,
    x: usize,
)
    requires
        n < w.len(),
        n < vectors.len(),
    ensures
        all_stored(w, 0).len() == 0 && stored(vectors, 0).len() == 0,
        w[n as int] is None ==> all_stored(w, n + 1) == all_stored(w, n),
        w[n as int] is Some ==> all_stored(w, n + 1) == all_stored(w, n) + stored(
            w[n as int]->0.vectors,
            w[n as int]->0.vectors.len(),
        ),
        vectors[n as int] is None ==> stored(vectors, n + 1) == stored(vectors, n),
        vectors[n as int] is Some ==> stored(vectors, n + 1) == stored(vectors, n).push(
            vectors[n as int]->0,
        ),
        sum_of(Seq::empty()) == 0,
        sum_of(values.push(x)) == sum_of(values) + x,
        clamped(x as int) == x,
        clamped(usize::MAX + 1 + x) == usize::MAX,
{
    assert(values.push(x).drop_last() =~= values);
    if w[n as int] is None {
        assert(all_stored(w, n + 1) =~= all_stored(w, n));
    }
}

} // verus!
