//! What a query gives back of what the log wrote.
use super::codebook::FieldCompressionDictionary;
use super::fast_match::has_hash;
use super::fetch::answer;
use super::fetch_laws::{
    distinct_signatures, honest_indexes, law_answer_is_complete, law_answer_is_sound,
    no_signature_clause, plain_numbers, single_valued, truthful_hashes,
};
use super::fields::{has_value, law_wal_payload_is_readable};
use super::guide::{ClauseView, GuideView};
use super::matching::{
    clause_holds, decoded_for, law_decoding_before_makes_no_difference, lemma_names_differ,
    lemma_values, matches_all, passes_at, satisfies, signature_only, value_passes, values,
};
use super::planner::PathView;
use super::scan::{covered, honest_config, scoped, ScanConfig};
use super::segment::{
    clause_skips, countable, describes, intron_total, law_exact_skip_is_sound, law_few_introns_are_countable,
    skips, FieldStats,
};
use crate::encoding::{codons_of, law_length_from_codon_count};
use crate::model::StrandView;
use crate::processor::{fnv1a64_spec, is_wal_strand};
use crate::support::bytes::lemma_le_round_trip;
use vstd::prelude::*;

verus! {

/// Whether a strand is that of a log entry whose payload an intron can span.
#[verifier::opaque]
pub open spec fn logged_entry(v: StrandView, collection_id: u32, sequence: u64, payload: Seq<u8>) -> bool {
    is_wal_strand(v, collection_id, sequence, payload, v.created_at) && codons_of(payload).len() <= u16::MAX
}

/// An intron can span the payloads of up to 49151 bytes, and no longer ones.
pub proof fn law_span_of_an_intron(payload: Seq<u8>)
    ensures
        codons_of(payload).len() <= u16::MAX <==> payload.len() <= 49151,
{
    law_length_from_codon_count(payload);
}

/// Whether strands are those of log entries of a collection, with no sequence twice.
pub open spec fn logged(
    strands: Seq<StrandView>,
    collection_id: u32,
    sequences: Seq<u64>,
    payloads: Seq<Seq<u8>>,
) -> bool {
    &&& sequences.len() == strands.len()
    &&& payloads.len() == strands.len()
    &&& sequences.no_duplicates()
    &&& forall|i: int|
        0 <= i < strands.len() ==> logged_entry(#[trigger] strands[i], collection_id, sequences[i], payloads[i])
}

/// Whether a query asks for one payload, and for nothing else.
pub open spec fn asks_for_payload(g: GuideView, payload: Seq<u8>) -> bool {
    &&& g.clauses.len() == 1
    &&& g.clauses[0] is Exact
    &&& g.clauses[0].field() == "_payload"@
    &&& g.clauses[0]->Exact_wire == payload
}

proof fn lemma_logged_distinct(strands: Seq<StrandView>, cid: u32, sequences: Seq<u64>, payloads: Seq<Seq<u8>>)
    requires
        logged(strands, cid, sequences, payloads),
    ensures
        distinct_signatures(strands),
{
    assert forall|i: int, j: int|
        0 <= i < strands.len() && 0 <= j < strands.len() && (#[trigger] strands[i]).signature == (
        #[trigger] strands[j]).signature implies i == j by {
        reveal(logged_entry);
        crate::support::bytes::lemma_pow256_values();
        lemma_le_round_trip(sequences[i] as nat, 8);
        lemma_le_round_trip(sequences[j] as nat, 8);
        assert(sequences[i] == sequences[j]);
    }
}

/// Whether a payload is all that can be read of a strand's payload field.
spec fn only_payload(v: StrandView, payload: Seq<u8>) -> bool {
    &&& has_value(v, "_payload"@, payload)
    &&& forall|value: Seq<u8>| has_value(v, "_payload"@, value) ==> value == payload
}

proof fn lemma_logged_strand(v: StrandView, cid: u32, sequence: u64, payload: Seq<u8>)
    requires
        logged_entry(v, cid, sequence, payload),
    ensures
        only_payload(v, payload),
        truthful_hashes(v),
{
    reveal(logged_entry);
    law_wal_payload_is_readable(v, cid, sequence, payload, v.created_at);
    assert(v.introns.len() == 1);
}

proof fn lemma_payload_matches(v: StrandView, payload: Seq<u8>, g: GuideView, asked: Seq<u8>)
    requires
        only_payload(v, payload),
        asks_for_payload(g, asked),
    ensures
        matches_all(v, g) <==> payload == asked,
{
    lemma_names_differ();
    lemma_values(v, "_payload"@);
    let c = g.clauses[0];
    let vals = values(v, "_payload"@);
    assert(!signature_only(g));
    if matches_all(v, g) {
        assert(satisfies(v, c, signature_only(g)));
        let i = choose|i: int| #[trigger] passes_at(c, vals, i);
        assert(vals.contains(vals[i]));
        assert(has_value(v, "_payload"@, asked));
    }
    if payload == asked {
        assert(vals.contains(payload));
        let i = vals.index_of(payload);
        assert(passes_at(c, vals, i));
        assert(satisfies(v, c, signature_only(g)));
    }
}

/// A query for a payload, without a limit, is answered with the strands of exactly those log
/// entries that hold it, whichever path is taken and whatever the planner remembers.
pub proof fn law_logged_payload_is_answered(
    path: PathView,
    g: GuideView,
    strands: Seq<StrandView>,
    cfg: ScanConfig,
    probing: bool,
    collection_id: u32,
    sequences: Seq<u64>,
    payloads: Seq<Seq<u8>>,
    payload: Seq<u8>,
    m: int,
    seg: int,
)
    requires
        strands.len() <= usize::MAX,
        logged(strands, collection_id, sequences, payloads),
        asks_for_payload(g, payload),
        g.limit is None,
        honest_config(cfg, strands),
        honest_indexes(cfg, strands),
        0 <= m < strands.len(),
        scoped(cfg.collection_id, strands[m]),
        covered(cfg, strands.len() as usize, m, seg),
    ensures
        answer(path, g, strands, cfg, probing).contains(strands[m]) <==> payloads[m] == payload,
{
    let v = strands[m];
    lemma_names_differ();
    lemma_logged_distinct(strands, collection_id, sequences, payloads);
    lemma_logged_strand(v, collection_id, sequences[m], payloads[m]);
    lemma_payload_matches(v, payloads[m], g, payload);
    assert(no_signature_clause(g));
    assert(plain_numbers(v, g) && single_valued(v, g));
    if payloads[m] == payload {
        law_answer_is_complete(path, g, strands, cfg, probing, m, seg);
    }
    if answer(path, g, strands, cfg, probing).contains(v) {
        law_answer_is_sound(path, g, strands, cfg, probing, v);
    }
}

/// A clause on the payload of a log entry is answered by the payload itself, byte for byte, with
/// values that were decoded before and without them.
pub proof fn law_payload_clause_reads_the_payload(
    v: StrandView,
    collection_id: u32,
    sequence: u64,
    payload: Seq<u8>,
    c: ClauseView,
    m: Map<Seq<char>, Vec<Vec<u8>>>,
    required: Set<Seq<char>>,
)
    requires
        logged_entry(v, collection_id, sequence, payload),
        c.field() == "_payload"@,
        decoded_for(m, v, required),
        required.contains("_payload"@),
    ensures
        clause_holds(v, c, None) == value_passes(c, payload),
        clause_holds(v, c, Some(m)) == value_passes(c, payload),
{
    lemma_names_differ();
    lemma_logged_strand(v, collection_id, sequence, payload);
    lemma_values(v, "_payload"@);
    let vals = values(v, "_payload"@);
    assert(vals.contains(payload));
    let k = vals.index_of(payload);
    if value_passes(c, payload) {
        assert(passes_at(c, vals, k));
    }
    assert forall|i: int| #[trigger] passes_at(c, vals, i) implies value_passes(c, payload) by {
        assert(vals.contains(vals[i]));
        assert(has_value(v, "_payload"@, vals[i]));
    }
    law_decoding_before_makes_no_difference(v, c, m, required);
}

/// A run of strands that holds a log entry with a payload is never skipped by a query for that
/// payload, with codebooks and without, however many payloads the run holds.
pub proof fn law_payload_is_not_skipped(
    stats: Map<u64, FieldStats>,
    books: Map<u64, FieldCompressionDictionary>,
    strands: Seq<StrandView>,
    names: Seq<&str>,
    places: nat,
    hashes: nat,
    collection_id: u32,
    sequence: u64,
    payload: Seq<u8>,
    g: GuideView,
    m: int,
)
    requires
        describes(stats, books, strands, names, places, hashes),
        0 <= m < strands.len(),
        logged_entry(strands[m], collection_id, sequence, payload),
        asks_for_payload(g, payload),
    ensures
        !skips(stats, Some(books), g),
        !skips(stats, None, g),
{
    let v = strands[m];
    let c = g.clauses[0];
    lemma_logged_strand(v, collection_id, sequence, payload);
    assert(has_hash(v.introns, "_payload"@, fnv1a64_spec(payload))) by {
        reveal(logged_entry);
        assert(v.introns[0].value_hash == fnv1a64_spec(payload));
    }
    if clause_skips(stats, Some(books), c) {
        law_exact_skip_is_sound(stats, books, strands, names, places, hashes, c, true, m);
    }
    if clause_skips(stats, None, c) {
        law_exact_skip_is_sound(stats, books, strands, names, places, hashes, c, false, m);
    }
}

proof fn lemma_one_intron_each(
    strands: Seq<StrandView>,
    cid: u32,
    sequences: Seq<u64>,
    payloads: Seq<Seq<u8>>,
    n: nat,
)
    requires
        logged(strands, cid, sequences, payloads),
        n <= strands.len(),
    ensures
        intron_total(strands, n) == n,
    decreases n,
{
    if n > 0 {
        lemma_one_intron_each(strands, cid, sequences, payloads, (n - 1) as nat);
        reveal(logged_entry);
        assert(logged_entry(strands[n - 1], cid, sequences[n - 1], payloads[n - 1]));
    }
}

/// Strands of log entries can be summed up whatever is tracked, as long as 32 bits can count
/// them.
pub proof fn law_logged_strands_are_countable(
    strands: Seq<StrandView>,
    collection_id: u32,
    sequences: Seq<u64>,
    payloads: Seq<Seq<u8>>,
    names: Seq<&str>,
)
    requires
        logged(strands, collection_id, sequences, payloads),
        strands.len() <= u32::MAX,
    ensures
        countable(strands, names),
{
    lemma_one_intron_each(strands, collection_id, sequences, payloads, strands.len());
    law_few_introns_are_countable(strands, names);
}

} // verus!
