//! Writing a segment: documents go in one by one, each field's values to
//! the postings writer of the field.

use crate::block_store::BlockStore;
use crate::codec::SegmentError;
use crate::dictionary::{readable_dictionary, written_dictionary, TermDictionaryBuilder};
use crate::postings_writer::{
    docs_bounded, field_terms, holds_at, lemma_points_to_extends, points_to, position_at,
    fits, lists, posting_from_field_entry, records_of, recorder_for, serves, subscribed, subscribed_all, tokens_of,
    PostingsWriter, TermPostings,
};
use crate::schema::{Document, FieldEntry, FieldType, FieldValue, Schema, Value};
use crate::term::{from_field_text, from_field_u32, text_term, u32_term};
use vstd::prelude::*;

verus! {

/// The number of free blocks under which the writer calls its buffer full.
pub const BUFFER_FULL_THRESHOLD: usize = 100_000;

/// What the values of one field in one document come to.
pub struct FieldPass {
    /// The postings of the field after the values.
    pub postings: Map<Seq<u8>, TermPostings>,
    /// The number of tokens of the field's text values, as far as 32 bits
    /// go.
    pub num_tokens: u32,
    /// Whether the document has a text value in the field.
    pub has_text: bool,
}

/// The pass over `values` for field `field`, whose schema entry is `entry`:
/// a tokenized text gives one occurrence for each token, at positions that
/// run on from value to value; any other text is one term at position 0;
/// an indexed number is one term at position 0. Values of other fields,
/// and values that are not of the field's type, are passed over.
pub open spec fn field_pass(
    start: Map<Seq<u8>, TermPostings>,
    entry: FieldEntry,
    field: u8,
    doc: u32,
    values: Seq<FieldValue>,
) -> FieldPass
    decreases values.len(),
{
    if values.len() == 0 {
        FieldPass { postings: start, num_tokens: 0, has_text: false }
    } else {
        let before = field_pass(start, entry, field, doc, values.drop_last());
        let v = values.last();
        let kind = recorder_for(entry);
        if v.field != field {
            before
        } else {
            match (entry.field_type, v.value) {
                (FieldType::Str(options), Value::Text(text)) => if options.tokenized() {
                    FieldPass {
                        postings: subscribed_all(
                            before.postings,
                            kind,
                            field,
                            doc,
                            before.num_tokens,
                            tokens_of(text@),
                        ),
                        num_tokens: position_at(before.num_tokens, tokens_of(text@).len() as int),
                        has_text: true,
                    }
                } else {
                    FieldPass {
                        postings: subscribed(before.postings, kind, text_term(field, text@), doc, 0),
                        num_tokens: position_at(before.num_tokens, 1),
                        has_text: true,
                    }
                },
                (FieldType::U32 { indexed }, Value::U32(x)) => if indexed {
                    FieldPass {
                        postings: subscribed(before.postings, kind, u32_term(field, x), doc, 0),
                        num_tokens: before.num_tokens,
                        has_text: before.has_text,
                    }
                } else {
                    before
                },
                _ => before,
            }
        }
    }
}

/// The number of occurrences that one value gives in a field.
pub open spec fn occurrences(entry: FieldEntry, v: FieldValue) -> nat {
    match (entry.field_type, v.value) {
        (FieldType::Str(options), Value::Text(text)) => if options.tokenized() {
            tokens_of(text@).len()
        } else {
            1
        },
        (FieldType::U32 { indexed }, Value::U32(_)) => if indexed {
            1
        } else {
            0
        },
        _ => 0,
    }
}

/// The number of occurrences that the values of field `field` give.
pub open spec fn field_occurrences(entry: FieldEntry, field: u8, values: Seq<FieldValue>) -> nat
    decreases values.len(),
{
    if values.len() == 0 {
        0
    } else {
        field_occurrences(entry, field, values.drop_last()) + (if values.last().field == field {
            occurrences(entry, values.last())
        } else {
            0
        })
    }
}

/// The number of occurrences that the values of the first `f` fields give.
pub open spec fn occurrences_below(fields: Seq<FieldEntry>, f: int, values: Seq<FieldValue>) -> nat
    decreases f,
{
    if f <= 0 || f > fields.len() {
        0
    } else {
        occurrences_below(fields, f - 1, values) + field_occurrences(
            fields[f - 1],
            (f - 1) as u8,
            values,
        )
    }
}

/// The values up to a place give no more occurrences than all of them.
pub proof fn lemma_field_occurrences_grow(
    entry: FieldEntry,
    field: u8,
    values: Seq<FieldValue>,
    j: int,
)
    requires
        0 <= j <= values.len(),
    ensures
        field_occurrences(entry, field, values.take(j)) <= field_occurrences(entry, field, values),
    decreases values.len() - j,
{
    if j < values.len() {
        lemma_field_occurrences_grow(entry, field, values, j + 1);
        assert(values.take(j + 1).drop_last() =~= values.take(j));
    } else {
        assert(values.take(j) =~= values);
    }
}

/// The first fields give no more occurrences than all of them.
pub proof fn lemma_occurrences_below_grow(
    fields: Seq<FieldEntry>,
    f: int,
    values: Seq<FieldValue>,
)
    requires
        0 <= f <= fields.len(),
    ensures
        occurrences_below(fields, f, values) <= occurrences_below(
            fields,
            fields.len() as int,
            values,
        ),
    decreases fields.len() - f,
{
    if f < fields.len() {
        lemma_occurrences_below_grow(fields, f + 1, values);
    }
}

/// The norms of a field padded with zeroes so that document `doc` has one.
pub open spec fn filled(norms: Seq<u32>, doc: u32) -> Seq<u32> {
    if norms.len() > doc {
        norms
    } else {
        Seq::new((doc + 1) as nat, |i: int| if i < norms.len() { norms[i] } else { 0u32 })
    }
}

/// The norms of a field after a document: the number of tokens where the
/// field is indexed and the document has text in it, then the padding.
pub open spec fn norms_after(norms: Seq<u32>, entry: FieldEntry, pass: FieldPass, doc: u32) -> Seq<
    u32,
> {
    if !entry.indexed() {
        norms
    } else if pass.has_text {
        filled(norms.push(pass.num_tokens), doc)
    } else {
        filled(norms, doc)
    }
}

/// The places of the values that go to the document store: those whose
/// field the schema marks as stored, in the order of the document.
pub open spec fn stored_places(values: Seq<FieldValue>, fields: Seq<FieldEntry>) -> Seq<usize>
    decreases values.len(),
{
    if values.len() == 0 {
        Seq::empty()
    } else {
        let before = stored_places(values.drop_last(), fields);
        let v = values.last();
        if v.field < fields.len() && fields[v.field as int].stored {
            before.push((values.len() - 1) as usize)
        } else {
            before
        }
    }
}

/// Picks the values of a document that go to the document store.
pub fn stored_field_values(doc: &Document, schema: &Schema) -> (places: Vec<usize>)
    ensures
        places@ == stored_places(doc.field_values@, schema.fields@),
{
    let mut places: Vec<usize> = Vec::new();
    let mut j: usize = 0;
    while j < doc.field_values.len()
        invariant
            j <= doc.field_values@.len(),
            places@ == stored_places(doc.field_values@.take(j as int), schema.fields@),
        decreases doc.field_values@.len() - j,
    {
        assert(doc.field_values@.take(j + 1).drop_last() =~= doc.field_values@.take(j as int));
        let field = doc.field_values[j].field as usize;
        if field < schema.fields.len() && schema.fields[field].is_stored() {
            places.push(j);
        }
        j += 1;
    }
    assert(doc.field_values@.take(j as int) =~= doc.field_values@);
    places
}

/// The norms writers of a schema: one list for each field. Only the lists
/// of indexed fields are ever filled; that of any other field stays
/// empty.
pub fn create_fieldnorms_writer(schema: &Schema) -> (norms: Vec<Vec<u32>>)
    ensures
        norms@.len() == schema.fields@.len(),
        forall|f: int| 0 <= f < norms@.len() ==> (#[trigger] norms@[f])@.len() == 0,
{
    let mut norms: Vec<Vec<u32>> = Vec::new();
    let mut f: usize = 0;
    while f < schema.fields.len()
        invariant
            f <= schema.fields@.len(),
            norms@.len() == f,
            forall|g: int| 0 <= g < norms@.len() ==> (#[trigger] norms@[g])@.len() == 0,
        decreases schema.fields@.len() - f,
    {
        norms.push(Vec::new());
        f += 1;
    }
    norms
}

/// Pads the norms with zeroes so that document `doc` has one.
pub fn fill_val_up_to(norms: &mut Vec<u32>, doc: u32)
    ensures
        final(norms)@ == filled(old(norms)@, doc),
{
    let ghost base = norms@;
    while norms.len() <= doc as usize
        invariant
            base == old(norms)@,
            base.len() <= norms@.len(),
            forall|i: int|
                0 <= i < norms@.len() ==> norms@[i] == (if i < base.len() {
                    base[i]
                } else {
                    0u32
                }),
            norms@.len() == base.len() || norms@.len() <= doc + 1,
        decreases doc + 1 - norms@.len(),
    {
        norms.push(0);
    }
    assert(norms@ =~= filled(base, doc));
}

/// Every postings writer is well formed and has the recorder that its
/// field calls for.
pub open spec fn writers_fit(writers: Seq<PostingsWriter>, fields: Seq<FieldEntry>) -> bool {
    &&& writers.len() == fields.len()
    &&& forall|f: int|
        0 <= f < writers.len() ==> (#[trigger] writers[f]).wf() && writers[f].kind()
            == recorder_for(fields[f])
}

/// Every postings writer is well formed and holds terms of its own field
/// only.
pub open spec fn writers_apart(writers: Seq<PostingsWriter>) -> bool {
    &&& writers.len() <= 256
    &&& forall|f: int|
        0 <= f < writers.len() ==> (#[trigger] writers[f]).wf() && field_terms(
            writers[f].entries(),
            f as u8,
        )
}

/// What a finished segment consists of.
pub struct SegmentData {
    /// The dictionary file.
    pub terms: Vec<u8>,
    /// The postings file.
    pub postings: Vec<u8>,
    /// The norms, field after field.
    pub fieldnorms: Vec<Vec<u32>>,
    /// The number of documents.
    pub max_doc: u32,
}

/// A term of a sorted list of entries whose terms begin with `field`
/// begins with `field`.
proof fn lemma_key_of_field(w: PostingsWriter, field: u8, t: Seq<u8>)
    requires
        field_terms(w.entries(), field),
        w@.contains_key(t),
    ensures
        t.len() > 0,
        t[0] == field,
{
    let c = choose|c: int| holds_at(w.entries(), t, c);
    assert(w.entries()[c].term == t);
}

/// One of the first `upto` writers holds `term`.
pub open spec fn in_some(writers: Seq<PostingsWriter>, upto: int, term: Seq<u8>) -> bool {
    exists|g: int| 0 <= g < upto && g < writers.len() && (#[trigger] writers[g])@.contains_key(term)
}

/// The records of the first `upto` writers, one after the other.
pub open spec fn all_records(writers: Seq<PostingsWriter>, upto: int) -> Seq<u8>
    decreases upto,
{
    if upto <= 0 || upto > writers.len() {
        Seq::empty()
    } else {
        all_records(writers, upto - 1) + records_of(writers[upto - 1].entries())
    }
}

/// The number of terms of the first `upto` writers.
pub open spec fn total_terms(writers: Seq<PostingsWriter>, upto: int) -> nat
    decreases upto,
{
    if upto <= 0 || upto > writers.len() {
        0
    } else {
        total_terms(writers, upto - 1) + writers[upto - 1].entries().len()
    }
}

/// The first writers hold no more terms than all of them.
pub proof fn lemma_totals_grow(writers: Seq<PostingsWriter>, f: int)
    requires
        0 <= f <= writers.len(),
    ensures
        total_terms(writers, f) <= total_terms(writers, writers.len() as int),
    decreases writers.len() - f,
{
    if f < writers.len() {
        lemma_totals_grow(writers, f + 1);
    }
}

/// The segment can be written: no list has more documents than a record
/// can count, and the payload table has room for every term.
pub open spec fn write_fits(writers: Seq<PostingsWriter>) -> bool {
    &&& forall|f: int|
        0 <= f < writers.len() ==> fits((#[trigger] writers[f]).entries(), 0)
    &&& total_terms(writers, writers.len() as int) <= u64::MAX
    &&& 12 * total_terms(writers, writers.len() as int) <= usize::MAX
}

/// Writes the postings of all fields, field after field, and the
/// dictionary over them; the postings file is the records of all terms,
/// one after the other. It fails exactly where a list holds more
/// documents than a record can count or the payload table has no room
/// for all terms.
#[verifier::rlimit(40)]
#[verifier::spinoff_prover]
pub fn write(writers: &Vec<PostingsWriter>) -> (r: Result<(Vec<u8>, Vec<u8>), SegmentError>)
    requires
        writers_apart(writers@),
    ensures
        r.is_ok() <==> write_fits(writers@),
        match r {
            Ok((terms, postings)) => {
                &&& postings@ == all_records(writers@, writers@.len() as int)
                &&& written_dictionary(terms@)
                &&& readable_dictionary(terms@)
                &&& forall|f: int, t: Seq<u8>|
                    0 <= f < writers@.len() && (#[trigger] writers@[f]@.contains_key(t)) ==> serves(
                        terms@,
                        postings@,
                        t,
                        writers@[f]@[t].docs,
                    )
                &&& forall|t: Seq<u8>| #[trigger]
                    lists(terms@, t) ==> in_some(writers@, writers@.len() as int, t)
            },
            Err(e) => e == SegmentError::IoError,
        },
{
    let mut dict = TermDictionaryBuilder::new();
    let mut postings: Vec<u8> = Vec::new();
    let mut f: usize = 0;
    while f < writers.len()
        invariant
            f <= writers@.len(),
            writers_apart(writers@),
            dict.wf(),
            dict.count() == total_terms(writers@, f as int),
            postings@ == all_records(writers@, f as int),
            forall|g: int| 0 <= g < f ==> fits((#[trigger] writers@[g]).entries(), 0),
            dict.last_key().is_none() || (dict.last_key().unwrap().len() > 0
                && dict.last_key().unwrap()[0] < f),
            forall|g: int, t: Seq<u8>|
                0 <= g < f && (#[trigger] writers@[g]@.contains_key(t)) ==> dict.lookup(t).is_some()
                    && points_to(dict.lookup(t).unwrap(), postings@, writers@[g]@[t].docs),
            forall|t: Seq<u8>| !in_some(writers@, f as int, t) ==> (#[trigger] dict.lookup(t)).is_none(),
        decreases writers@.len() - f,
    {
        let ghost dict_before = dict;
        let ghost file_before = postings@;
        let ghost w = writers@[f as int];
        proof {
            assert(w.wf() && field_terms(w.entries(), f as u8));
            if w.entries().len() > 0 && dict.last_key().is_some() {
                assert(crate::term::precedes_at(dict.last_key().unwrap(), w.entries()[0].term, 0));
            }
            lemma_totals_grow(writers@, f + 1);
            assert(all_records(writers@, f + 1) == all_records(writers@, f as int) + records_of(
                w.entries(),
            ));
        }
        match writers[f].serialize(&mut dict, &mut postings) {
            Ok(_) => {},
            Err(_) => {
                return Err(SegmentError::IoError);
            },
        }
        proof {
            assert forall|g: int, t: Seq<u8>|
                0 <= g < f + 1 && (#[trigger] writers@[g]@.contains_key(t)) implies dict.lookup(
                t,
            ).is_some() && points_to(dict.lookup(t).unwrap(), postings@, writers@[g]@[t].docs) by {
                if g < f {
                    assert(writers@[g].wf() && field_terms(writers@[g].entries(), g as u8));
                    lemma_key_of_field(writers@[g], g as u8, t);
                    if w@.contains_key(t) {
                        lemma_key_of_field(w, f as u8, t);
                    }
                    assert(dict.lookup(t) == dict_before.lookup(t));
                    lemma_points_to_extends(
                        dict_before.lookup(t).unwrap(),
                        file_before,
                        postings@,
                        writers@[g]@[t].docs,
                    );
                }
            }
            if w.entries().len() > 0 {
                assert(w.entries().last().term[0] == f as u8);
            }
            assert forall|t: Seq<u8>| !in_some(writers@, f + 1, t) implies (#[trigger] dict.lookup(
                t,
            )).is_none() by {
                if in_some(writers@, f as int, t) {
                    let g = choose|g: int|
                        0 <= g < f && g < writers@.len() && (#[trigger] writers@[g])@.contains_key(t);
                    assert(writers@[g]@.contains_key(t));
                }
                if w@.contains_key(t) {
                    assert(writers@[f as int]@.contains_key(t));
                }
                assert(dict.lookup(t) == dict_before.lookup(t));
            }
        }
        f += 1;
    }
    let ghost index = dict.index();
    let ghost payloads = dict.payloads();
    proof {
        assert forall|g: int, t: Seq<u8>|
            0 <= g < writers@.len() && (#[trigger] writers@[g]@.contains_key(t)) implies index.contains_key(
            t,
        ) && index[t] < payloads.len() / 12 && points_to(
            crate::dictionary::payload_at(payloads, index[t] as int),
            postings@,
            writers@[g]@[t].docs,
        ) by {
            dict.lemma_lookup(t);
        }
        assert forall|t: Seq<u8>| index.contains_key(t) implies in_some(
            writers@,
            writers@.len() as int,
            t,
        ) by {
            dict.lemma_lookup(t);
        }
    }
    let terms = dict.finish();
    Ok((terms, postings))
}

/// The writer of one segment.
pub struct SegmentWriter {
    block_store: BlockStore,
    max_doc: u32,
    per_field_postings_writers: Vec<PostingsWriter>,
    fieldnorms_writer: Vec<Vec<u32>>,
}

impl SegmentWriter {
    /// The number of documents taken.
    pub closed spec fn num_docs(&self) -> nat {
        self.max_doc as nat
    }

    /// The postings writers, field after field.
    pub closed spec fn writers(&self) -> Seq<PostingsWriter> {
        self.per_field_postings_writers@
    }

    /// The norms, field after field: for each field one norm for each
    /// document so far, where the field is indexed.
    pub closed spec fn norm_lists(&self) -> Seq<Vec<u32>> {
        self.fieldnorms_writer@
    }

    /// The arena.
    pub closed spec fn arena(&self) -> BlockStore {
        self.block_store
    }

    /// The documents of every term of every field are strictly increasing
    /// and below the number of documents taken.
    pub open spec fn docs_in_range(&self) -> bool {
        forall|f: int|
            0 <= f < self.writers().len() ==> docs_bounded(
                (#[trigger] self.writers()[f]).entries(),
                self.num_docs() as int,
            )
    }

    /// The writer fits the schema: one postings writer and one list of
    /// norms for each field, each writer with the recorder that the field
    /// calls for.
    pub open spec fn wf(&self, schema: &Schema) -> bool {
        &&& schema.wf()
        &&& self.arena().wf()
        &&& self.norm_lists().len() == schema.fields@.len()
        &&& writers_fit(self.writers(), schema.fields@)
        &&& writers_apart(self.writers())
    }

    /// A writer for a new segment over the given arena.
    pub fn for_segment(block_store: BlockStore, schema: &Schema) -> (w: SegmentWriter)
        requires
            block_store.wf(),
            schema.wf(),
        ensures
            w.wf(schema),
            w.num_docs() == 0,
            w.docs_in_range(),
            w.arena() == block_store,
            forall|f: int|
                0 <= f < w.writers().len() ==> (#[trigger] w.writers()[f])@ == Map::<
                    Seq<u8>,
                    TermPostings,
                >::empty(),
            forall|f: int| 0 <= f < w.norm_lists().len() ==> (#[trigger] w.norm_lists()[f])@.len() == 0,
    {
        let mut per_field_postings_writers: Vec<PostingsWriter> = Vec::new();
        let mut f: usize = 0;
        while f < schema.fields.len()
            invariant
                f <= schema.fields@.len(),
                per_field_postings_writers@.len() == f,
                forall|g: int|
                    0 <= g < f ==> (#[trigger] per_field_postings_writers@[g]).wf()
                        && per_field_postings_writers@[g].kind() == recorder_for(schema.fields@[g])
                        && per_field_postings_writers@[g]@ == Map::<Seq<u8>, TermPostings>::empty()
                        && per_field_postings_writers@[g].entries().len() == 0,
            decreases schema.fields@.len() - f,
        {
            per_field_postings_writers.push(posting_from_field_entry(&schema.fields[f]));
            f += 1;
        }
        SegmentWriter {
            block_store,
            max_doc: 0,
            per_field_postings_writers,
            fieldnorms_writer: create_fieldnorms_writer(schema),
        }
    }

    /// Whether the arena is nearly used up.
    pub fn is_buffer_full(&self) -> (r: bool)
        ensures
            r == (self.arena().free().len() < BUFFER_FULL_THRESHOLD),
    {
        self.block_store.num_free_blocks() < BUFFER_FULL_THRESHOLD
    }

    /// The number of documents taken: the id of the next one.
    pub fn max_doc(&self) -> (r: u32)
        ensures
            r == self.num_docs(),
    {
        self.max_doc
    }

    /// The postings writer of field `f`.
    pub fn postings_writer(&self, f: usize) -> (w: &PostingsWriter)
        requires
            f < self.writers().len(),
        ensures
            *w == self.writers()[f as int],
    {
        &self.per_field_postings_writers[f]
    }

    /// Ends the segment: writes the postings and the dictionary, and hands
    /// them out with the norms and the number of documents.
    pub fn finalize(self) -> (r: Result<SegmentData, SegmentError>)
        requires
            writers_apart(self.writers()),
        ensures
            r.is_ok() <==> write_fits(self.writers()),
            match r {
                Ok(data) => {
                    &&& data.max_doc == self.num_docs()
                    &&& data.fieldnorms@ == self.norm_lists()
                    &&& data.postings@ == all_records(self.writers(), self.writers().len() as int)
                    &&& written_dictionary(data.terms@)
                    &&& readable_dictionary(data.terms@)
                    &&& forall|f: int, t: Seq<u8>|
                        0 <= f < self.writers().len() && (#[trigger] self.writers()[f]@.contains_key(
                            t,
                        )) ==> serves(data.terms@, data.postings@, t, self.writers()[f]@[t].docs)
                    &&& forall|t: Seq<u8>| #[trigger]
                        lists(data.terms@, t) ==> in_some(
                            self.writers(),
                            self.writers().len() as int,
                            t,
                        )
                },
                Err(e) => e == SegmentError::IoError,
            },
    {
        match write(&self.per_field_postings_writers) {
            Ok((terms, postings)) => Ok(
                SegmentData {
                    terms,
                    postings,
                    fieldnorms: self.fieldnorms_writer,
                    max_doc: self.max_doc,
                },
            ),
            Err(e) => Err(e),
        }
    }

    /// Records the values that document `doc_id` has in field `f`.
    fn index_field(&mut self, doc: &Document, schema: &Schema, f: usize, doc_id: u32) -> (r: Result<
        (u32, bool),
        SegmentError,
    >)
        requires
            old(self).wf(schema),
            f < schema.fields@.len(),
        ensures
            final(self).wf(schema),
            final(self).arena().block_size() == old(self).arena().block_size(),
            final(self).num_docs() == old(self).num_docs(),
            final(self).norm_lists() == old(self).norm_lists(),
            forall|g: int|
                0 <= g < schema.fields@.len() && g != f ==> #[trigger] final(self).writers()[g]
                    == old(self).writers()[g],
            docs_bounded(old(self).writers()[f as int].entries(), doc_id + 1) ==> docs_bounded(
                final(self).writers()[f as int].entries(),
                doc_id + 1,
            ),
            old(self).arena().free().len() >= 12 * field_occurrences(
                schema.fields@[f as int],
                f as u8,
                doc.field_values@,
            ) ==> r.is_ok(),
            final(self).arena().free().len() + 12 * field_occurrences(
                schema.fields@[f as int],
                f as u8,
                doc.field_values@,
            ) >= old(self).arena().free().len(),
            match r {
                Ok((num_tokens, has_text)) => field_pass(
                    old(self).writers()[f as int]@,
                    schema.fields@[f as int],
                    f as u8,
                    doc_id,
                    doc.field_values@,
                ) == (FieldPass { postings: final(self).writers()[f as int]@, num_tokens, has_text }),
                Err(e) => e == SegmentError::OutOfBlocks && final(self).arena().free().len() == 0,
            },
    {
        let field = f as u8;
        let entry = schema.fields[f];
        let ghost values = doc.field_values@;
        let ghost start = self.writers()[f as int]@;
        let mut num_tokens: u32 = 0;
        let mut has_text = false;
        let mut j: usize = 0;
        while j < doc.field_values.len()
            invariant
                j <= doc.field_values@.len(),
                f < schema.fields@.len() <= 256,
                field == f,
                entry == schema.fields@[f as int],
                values == doc.field_values@,
                start == old(self).writers()[f as int]@,
                self.wf(schema),
                self.max_doc == old(self).max_doc,
                self.arena().block_size() == old(self).arena().block_size(),
                self.fieldnorms_writer == old(self).fieldnorms_writer,
                docs_bounded(old(self).writers()[f as int].entries(), doc_id + 1) ==> docs_bounded(
                    self.writers()[f as int].entries(),
                    doc_id + 1,
                ),
                self.arena().free().len() + 12 * field_occurrences(
                    entry,
                    field,
                    values.take(j as int),
                ) >= old(self).arena().free().len(),
                forall|g: int|
                    0 <= g < schema.fields@.len() && g != f ==> #[trigger] self.writers()[g] == old(
                        self,
                    ).writers()[g],
                field_pass(start, entry, field, doc_id, values.take(j as int)) == (FieldPass {
                    postings: self.writers()[f as int]@,
                    num_tokens,
                    has_text,
                }),
            decreases doc.field_values@.len() - j,
        {
            assert(values.take(j + 1).drop_last() =~= values.take(j as int));
            assert(values.take(j + 1).last() == doc.field_values@[j as int]);
            proof {
                lemma_field_occurrences_grow(entry, field, values, j + 1);
            }
            if doc.field_values[j].field == field {
                match entry.field_type {
                    FieldType::Str(options) => {
                        match &doc.field_values[j].value {
                            Value::Text(text) => {
                                if options.is_tokenized() {
                                    let counted = self.per_field_postings_writers[f].index_text(
                                        &mut self.block_store,
                                        doc_id,
                                        field,
                                        num_tokens,
                                        text,
                                    );
                                    match counted {
                                        Ok(n) => {
                                            num_tokens = if n <= (u32::MAX - num_tokens) as usize {
                                                num_tokens + n as u32
                                            } else {
                                                u32::MAX
                                            };
                                        },
                                        Err(e) => {
                                            return Err(e);
                                        },
                                    }
                                } else {
                                    let term = from_field_text(field, text);
                                    match self.per_field_postings_writers[f].subscribe(
                                        &mut self.block_store,
                                        doc_id,
                                        0,
                                        &term,
                                    ) {
                                        Ok(_) => {},
                                        Err(e) => {
                                            return Err(e);
                                        },
                                    }
                                    num_tokens = if num_tokens < u32::MAX {
                                        num_tokens + 1
                                    } else {
                                        num_tokens
                                    };
                                }
                                has_text = true;
                            },
                            Value::U32(_) => {},
                        }
                    },
                    FieldType::U32 { indexed } => {
                        match &doc.field_values[j].value {
                            Value::U32(x) => {
                                if indexed {
                                    let term = from_field_u32(field, *x);
                                    match self.per_field_postings_writers[f].subscribe(
                                        &mut self.block_store,
                                        doc_id,
                                        0,
                                        &term,
                                    ) {
                                        Ok(_) => {},
                                        Err(e) => {
                                            return Err(e);
                                        },
                                    }
                                }
                            },
                            Value::Text(_) => {},
                        }
                    },
                }
            }
            j += 1;
        }
        assert(values.take(j as int) =~= values);
        proof {
            lemma_field_occurrences_grow(entry, field, values, j as int);
        }
        Ok((num_tokens, has_text))
    }

    /// Takes one document: it gets the next id, and the values of each
    /// field go to the field's postings writer and norms. Where the arena
    /// runs out of blocks, the document is not counted.
    pub fn add_document(&mut self, doc: &Document, schema: &Schema) -> (r: Result<(), SegmentError>)
        requires
            old(self).wf(schema),
            old(self).num_docs() < u32::MAX,
        ensures
            final(self).wf(schema),
            final(self).arena().block_size() == old(self).arena().block_size(),
            old(self).arena().free().len() >= 12 * occurrences_below(
                schema.fields@,
                schema.fields@.len() as int,
                doc.field_values@,
            ) ==> r.is_ok(),
            match r {
                Ok(_) => {
                    &&& final(self).num_docs() == old(self).num_docs() + 1
                    &&& old(self).docs_in_range() ==> final(self).docs_in_range()
                    &&& forall|f: int|
                        0 <= f < schema.fields@.len() ==> (#[trigger] final(self).writers()[f])@
                            == field_pass(
                            old(self).writers()[f]@,
                            schema.fields@[f],
                            f as u8,
                            old(self).num_docs() as u32,
                            doc.field_values@,
                        ).postings
                    &&& forall|f: int|
                        0 <= f < schema.fields@.len() ==> (#[trigger] final(self).norm_lists()[f])@
                            == norms_after(
                            old(self).norm_lists()[f]@,
                            schema.fields@[f],
                            field_pass(
                                old(self).writers()[f]@,
                                schema.fields@[f],
                                f as u8,
                                old(self).num_docs() as u32,
                                doc.field_values@,
                            ),
                            old(self).num_docs() as u32,
                        )
                },
                Err(e) => {
                    &&& e == SegmentError::OutOfBlocks
                    &&& final(self).num_docs() == old(self).num_docs()
                    &&& final(self).arena().free().len() == 0
                },
            },
    {
        let doc_id = self.max_doc;
        let num_fields = self.per_field_postings_writers.len();
        let ghost values = doc.field_values@;
        let mut f: usize = 0;
        while f < num_fields
            invariant
                f <= num_fields,
                num_fields == schema.fields@.len(),
                values == doc.field_values@,
                self.wf(schema),
                old(self).wf(schema),
                self.max_doc == doc_id,
                doc_id == old(self).max_doc,
                self.arena().block_size() == old(self).arena().block_size(),
                old(self).docs_in_range() ==> forall|g: int|
                    0 <= g < num_fields ==> docs_bounded(
                        (#[trigger] self.writers()[g]).entries(),
                        doc_id + 1,
                    ),
                self.arena().free().len() + 12 * occurrences_below(
                    schema.fields@,
                    f as int,
                    values,
                ) >= old(self).arena().free().len(),
                forall|g: int|
                    f <= g < num_fields ==> #[trigger] self.writers()[g] == old(self).writers()[g],
                forall|g: int|
                    f <= g < num_fields ==> #[trigger] self.norm_lists()[g] == old(
                        self,
                    ).norm_lists()[g],
                forall|g: int|
                    0 <= g < f ==> (#[trigger] self.writers()[g])@ == field_pass(
                        old(self).writers()[g]@,
                        schema.fields@[g],
                        g as u8,
                        doc_id,
                        values,
                    ).postings,
                forall|g: int|
                    0 <= g < f ==> (#[trigger] self.norm_lists()[g])@ == norms_after(
                        old(self).norm_lists()[g]@,
                        schema.fields@[g],
                        field_pass(
                            old(self).writers()[g]@,
                            schema.fields@[g],
                            g as u8,
                            doc_id,
                            values,
                        ),
                        doc_id,
                    ),
            decreases num_fields - f,
        {
            let ghost before = *self;
            proof {
                lemma_occurrences_below_grow(schema.fields@, f + 1, values);
            }
            let (num_tokens, has_text) = match self.index_field(doc, schema, f, doc_id) {
                Ok(pass) => pass,
                Err(e) => {
                    return Err(e);
                },
            };
            if schema.fields[f].is_indexed() {
                if has_text {
                    self.fieldnorms_writer[f].push(num_tokens);
                }
                fill_val_up_to(&mut self.fieldnorms_writer[f], doc_id);
            }
            proof {
                if old(self).docs_in_range() {
                    assert forall|g: int| 0 <= g < num_fields implies docs_bounded(
                        (#[trigger] self.writers()[g]).entries(),
                        doc_id + 1,
                    ) by {
                        assert(docs_bounded(before.writers()[g].entries(), doc_id + 1));
                        if g != f {
                            assert(self.writers()[g] == before.writers()[g]);
                        }
                    }
                }
                assert forall|g: int| 0 <= g < f + 1 implies (#[trigger] self.writers()[g])@
                    == field_pass(
                    old(self).writers()[g]@,
                    schema.fields@[g],
                    g as u8,
                    doc_id,
                    values,
                ).postings by {
                    if g < f {
                        assert(self.writers()[g] == before.writers()[g]);
                    } else {
                        assert(before.writers()[g] == old(self).writers()[g]);
                    }
                }
                assert forall|g: int| 0 <= g < f + 1 implies (#[trigger] self.norm_lists()[g])@
                    == norms_after(
                    old(self).norm_lists()[g]@,
                    schema.fields@[g],
                    field_pass(old(self).writers()[g]@, schema.fields@[g], g as u8, doc_id, values),
                    doc_id,
                ) by {
                    if g < f {
                        assert(self.norm_lists()[g] == before.norm_lists()[g]);
                    } else {
                        assert(before.norm_lists()[g] == old(self).norm_lists()[g]);
                        assert(before.writers()[g] == old(self).writers()[g]);
                    }
                }
                assert forall|g: int| f + 1 <= g < num_fields implies #[trigger] self.norm_lists()[g]
                    == old(self).norm_lists()[g] by {
                    assert(before.norm_lists()[g] == old(self).norm_lists()[g]);
                }
                assert forall|g: int| f + 1 <= g < num_fields implies #[trigger] self.writers()[g]
                    == old(self).writers()[g] by {
                    assert(before.writers()[g] == old(self).writers()[g]);
                }
            }
            f += 1;
        }
        self.max_doc = self.max_doc + 1;
        Ok(())
    }
}

} // verus!
