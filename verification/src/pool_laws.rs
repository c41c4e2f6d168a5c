//! How bytes become codons, what is found wrong with them, how strands are framed and counted,
//! how pools grow, which entries a replica applies, and what the audit log vouches for.
use crate::audit::{parts, records, AuditView, AuditWrite};
use crate::codec::{strand_frame, strand_payload};
use crate::complement::{
    complement_spec, corruption_spec, pair_count, Corruption,
};
use crate::encoding::{
    codons_of, decode_spec, first_invalid, lemma_digits, symbols_of, unpack, EncodingError,
};
use crate::digest::crc32_of;
use crate::integrity::{crc_entry, mismatched, missing};
use crate::model::{Codon, StrandView};
use crate::processor::{complement_blob, fnv1a64_spec, is_wal_strand, materializes, MaterializedEntry};
use crate::recovery::{mark_after, WalEntry};
use crate::replication::to_apply;
use crate::storage::{capacity_for, doubled, frames, top_version};
use crate::support::bytes::{from_le, le_bytes, lemma_le_bytes_len, lemma_le_round_trip, lemma_pow256_values};
use crate::support::num_text::decimal;
use vstd::prelude::*;

verus! {

/// The symbols of encoded bytes, four for each byte, are its digits in base four, the highest
/// first; what fills the last codon up is zero.
pub proof fn law_symbols_spell_the_bytes(bytes: Seq<u8>, j: int, i: int)
    ensures
        ({
            let s = unpack(codons_of(bytes));
            &&& s.len() >= 4 * bytes.len()
            &&& 0 <= i < s.len() ==> s[i] < 4
            &&& 0 <= j < bytes.len() ==> bytes[j] == 64 * s[4 * j] + 16 * s[4 * j + 1] + 4 * s[4 * j + 2] + s[4 * j + 3]
            &&& 4 * bytes.len() <= i < s.len() ==> s[i] == 0
        }),
{
    let s = unpack(codons_of(bytes));
    let all = symbols_of(bytes);
    assert forall|k: int| 0 <= k < s.len() implies #[trigger] s[k] == (if k < all.len() {
        all[k]
    } else {
        0
    }) by {
        assert(3 * (k / 3) + k % 3 == k);
    }
    if 0 <= j < bytes.len() {
        lemma_digits(bytes[j]);
        assert(s[4 * j] == all[4 * j]);
        assert(s[4 * j + 1] == all[4 * j + 1]);
        assert(s[4 * j + 2] == all[4 * j + 2]);
        assert(s[4 * j + 3] == all[4 * j + 3]);
        assert((4 * j) / 4 == j && (4 * j + 1) / 4 == j && (4 * j + 2) / 4 == j && (4 * j + 3) / 4 == j);
    }
    if 0 <= i < s.len() {
        assert(s[i] == (if i < all.len() {
            all[i]
        } else {
            0
        }));
        if i < all.len() {
            lemma_digits(bytes[i / 4]);
            assert(0 <= i % 4 < 4);
        }
    }
}

/// Codons decode to the bytes that their symbols spell; the first symbol that is no digit is
/// named, and too few symbols are refused.
pub proof fn law_decoding_spells_or_refuses(codons: Seq<Codon>, n: nat, k: int, j: int)
    ensures
        ({
            let s = unpack(codons);
            &&& 0 <= k < s.len() && s[k] >= 4 && (forall|m: int| 0 <= m < k ==> #[trigger] s[m] < 4) ==> decode_spec(
                codons,
                n,
            ) == Err::<Seq<u8>, EncodingError>(EncodingError::InvalidSymbol(s[k]))
            &&& (forall|m: int| 0 <= m < s.len() ==> #[trigger] s[m] < 4) && s.len() < 4 * n ==> decode_spec(codons, n)
                == Err::<Seq<u8>, EncodingError>(EncodingError::InsufficientSymbols)
            &&& (forall|m: int| 0 <= m < s.len() ==> #[trigger] s[m] < 4) && s.len() >= 4 * n ==> {
                &&& decode_spec(codons, n) is Ok
                &&& decode_spec(codons, n)->Ok_0.len() == n
                &&& 0 <= j < n ==> decode_spec(codons, n)->Ok_0[j] == 64 * s[4 * j] + 16 * s[4 * j + 1] + 4 * s[4 * j + 2]
                    + s[4 * j + 3]
            }
        }),
{
    let s = unpack(codons);
    if 0 <= k < s.len() && s[k] >= 4 && (forall|m: int| 0 <= m < k ==> #[trigger] s[m] < 4) {
        assert(first_invalid(s, k));
        let i = choose|i: int| first_invalid(s, i);
        if i < k {
            assert(s[i] < 4);
        } else if k < i {
            assert(s[k] < 4);
        }
    }
    if forall|m: int| 0 <= m < s.len() ==> #[trigger] s[m] < 4 {
        assert forall|i: int| !first_invalid(s, i) by {
            if 0 <= i < s.len() {
                assert(s[i] < 4);
            }
        }
        if s.len() >= 4 * n && 0 <= j < n {
            assert(s[4 * j] < 4 && s[4 * j + 1] < 4 && s[4 * j + 2] < 4 && s[4 * j + 3] < 4);
        }
    }
}

/// Each symbol of a complement and the one that it stands opposite to make three.
pub proof fn law_opposite_symbols_make_three(s: Seq<Codon>, i: int, k: int)
    requires
        0 <= i < s.len(),
        0 <= k < 3,
        s[i].0 < 4 && s[i].1 < 4 && s[i].2 < 4,
    ensures
        complement_spec(s).len() == s.len(),
        s[i].symbol(k) + complement_spec(s)[i].symbol(k) == 3,
{
}

/// What is found corrupt is exactly the symbols that do not make three with those opposite, each
/// with its place and both values, and in order.
pub proof fn law_corruption_is_what_does_not_make_three(
    strand: Seq<Codon>,
    complement: Seq<Codon>,
    n: nat,
    c: Corruption,
    a: int,
    b: int,
)
    requires
        n <= 3 * pair_count(strand, complement),
        strand.len() <= usize::MAX,
    ensures
        corruption_spec(strand, complement, n).contains(c) <==> {
            &&& 3 * c.codon_index + c.symbol_index < n
            &&& c.symbol_index < 3
            &&& c.strand_value == strand[c.codon_index as int].symbol(c.symbol_index as int)
            &&& c.complement_value == complement[c.codon_index as int].symbol(c.symbol_index as int)
            &&& c.strand_value + c.complement_value != 3
        },
        0 <= a < b < corruption_spec(strand, complement, n).len() ==> {
            let x = corruption_spec(strand, complement, n)[a];
            let y = corruption_spec(strand, complement, n)[b];
            3 * x.codon_index + x.symbol_index < 3 * y.codon_index + y.symbol_index
        },
    decreases n,
{
    if n > 0 {
        let before = corruption_spec(strand, complement, (n - 1) as nat);
        let now = corruption_spec(strand, complement, n);
        let i = (n - 1) / 3;
        let k = (n - 1) % 3;
        law_corruption_is_what_does_not_make_three(strand, complement, (n - 1) as nat, c, a, b);
        if before.contains(c) {
            assert(now[before.index_of(c)] == c);
        }
        if now.contains(c) {
            let q = now.index_of(c);
            if q < before.len() {
                assert(before[q] == c);
            }
        }
        if 3 * c.codon_index + c.symbol_index == n - 1 && c.symbol_index < 3 {
            assert(c.codon_index == i && c.symbol_index == k);
            if c.strand_value == strand[i].symbol(k) && c.complement_value == complement[i].symbol(k)
                && c.strand_value + c.complement_value != 3 {
                assert(now[before.len() as int] == c);
            }
        }
        if 0 <= a < b < now.len() {
            if b < before.len() {
                assert(now[a] == before[a] && now[b] == before[b]);
            } else {
                assert(now[a] == before[a]);
                assert(before.contains(before[a]));
                law_corruption_is_what_does_not_make_three(strand, complement, (n - 1) as nat, before[a], 0, 0);
            }
        }
    } else {
        assert(corruption_spec(strand, complement, 0).len() == 0);
    }
}

/// The hash of no bytes is the offset of FNV-1a with 64 bits; each further byte is mixed in by
/// exclusive or and a multiplication with the prime, modulo two to the power of 64.
pub proof fn law_fnv_mixes_byte_by_byte(data: Seq<u8>, b: u8)
    ensures
        fnv1a64_spec(Seq::empty()) == 0xcbf2_9ce4_8422_2325,
        fnv1a64_spec(data.push(b)) as int == ((fnv1a64_spec(data) ^ (b as u64)) as int * 0x100_0000_01b3)
            % 0x1_0000_0000_0000_0000,
{
    assert(data.push(b).drop_last() =~= data);
}

/// What the strand of a log entry holds: the sequence as version and signature, the payload in
/// codons with their complement and one intron over them, an immortal telomere, the sequence as
/// a tag, and the time.
pub proof fn law_strand_of_a_log_entry(v: StrandView, collection_id: u32, sequence: u64, payload: Seq<u8>, now: u64)
    requires
        is_wal_strand(v, collection_id, sequence, payload, now),
    ensures
        v.version == sequence,
        v.signature@ == le_bytes(sequence as nat, 8),
        from_le(v.signature@) == sequence,
        v.collection_id == collection_id,
        v.codons == codons_of(payload),
        v.complement == complement_spec(codons_of(payload)),
        v.introns.len() == 1,
        v.introns[0].field_name == "_payload"@,
        v.introns[0].codon_offset == 0,
        codons_of(payload).len() <= 65535 ==> v.introns[0].codon_length == codons_of(payload).len(),
        codons_of(payload).len() > 65535 ==> v.introns[0].codon_length == 65535,
        v.introns[0].value_hash == fnv1a64_spec(payload),
        v.introns[0].references_strand is None,
        v.telomere.immortal,
        v.telomere.last_refresh == now,
        v.epigenetic_tags.len() == 1,
        v.epigenetic_tags[0].key == "wal_sequence"@,
        v.epigenetic_tags[0].value == decimal(sequence as nat),
        v.created_at == now,
        v.updated_at == now,
{
    lemma_pow256_values();
    lemma_le_round_trip(sequence as nat, 8);
}

/// What a log entry adds to the pools: the frame of its strand; its sequence and the checksum of
/// that frame; and its complement behind its byte count.
pub proof fn law_materialized_entry(e: MaterializedEntry, v: StrandView, sequence: u64)
    requires
        materializes(e, v, sequence),
    ensures
        e.strand_bytes@ == strand_frame(v),
        e.crc_entry@ == le_bytes(sequence as nat, 8) + le_bytes(crc32_of(e.strand_bytes@) as nat, 4),
        e.complement_bytes@ == complement_blob(v.complement),
        8 + 3 * v.complement.len() <= u32::MAX ==> from_le(e.complement_bytes@.subrange(0, 4)) == 8 + 3
            * v.complement.len() && from_le(e.complement_bytes@.subrange(4, 12)) == v.complement.len(),
{
    let n = v.complement.len();
    if 8 + 3 * n <= u32::MAX {
        lemma_pow256_values();
        lemma_le_bytes_len((8 + 3 * n) as nat, 4);
        lemma_le_bytes_len(n, 8);
        lemma_le_round_trip((8 + 3 * n) as nat, 4);
        lemma_le_round_trip(n, 8);
        let b = e.complement_bytes@;
        assert(b.subrange(0, 4) =~= le_bytes((8 + 3 * n) as nat, 4));
        assert(b.subrange(4, 12) =~= le_bytes(n, 8));
    }
}

/// A frame is four marks, a version in two bytes, and the strand.
pub proof fn law_frames_are_marked(v: StrandView)
    ensures
        strand_frame(v) =~= seq![0x44u8, 0x4eu8, 0x41u8, 0x53u8, 1u8, 0u8] + strand_payload(v),
{
    lemma_le_bytes_len(1, 2);
    assert(le_bytes(1, 2) =~= seq![1u8, 0u8]) by {
        reveal_with_fuel(le_bytes, 3);
    }
}

/// The highest version is that of some strand, and no strand has a higher one.
pub proof fn law_top_version_is_the_highest(vs: Seq<StrandView>)
    ensures
        forall|i: int| 0 <= i < vs.len() ==> (#[trigger] vs[i]).version <= top_version(vs),
        vs.len() == 0 ==> top_version(vs) == 0,
        vs.len() > 0 ==> exists|i: int| 0 <= i < vs.len() && (#[trigger] vs[i]).version == top_version(vs),
    decreases vs.len(),
{
    if vs.len() > 0 {
        let front = vs.drop_last();
        law_top_version_is_the_highest(front);
        assert forall|i: int| 0 <= i < vs.len() implies (#[trigger] vs[i]).version <= top_version(vs) by {
            if i < front.len() {
                assert(front[i].version <= top_version(front));
            }
        }
        if top_version(vs) == vs.last().version {
            assert(vs[vs.len() - 1].version == top_version(vs));
        } else {
            if front.len() > 0 {
                let i = choose|i: int| 0 <= i < front.len() && (#[trigger] front[i]).version == top_version(front);
                assert(vs[i].version == top_version(vs));
            } else {
                assert(vs[0].version == 0);
            }
        }
    }
}

/// The frames of strands stand one behind the other in their order.
pub proof fn law_frames_stand_in_order(vs: Seq<StrandView>, v: StrandView)
    ensures
        frames(Seq::empty()) == Seq::<u8>::empty(),
        frames(vs.push(v)) == frames(vs) + strand_frame(v),
{
    assert(vs.push(v).drop_last() =~= vs);
}

/// A pool that is large enough keeps its size. One that is not becomes large enough: by doubling
/// from its own size, or a mebibyte if that is more, and no oftener than it must.
pub proof fn law_pools_grow_by_doubling(capacity: nat, required: nat)
    requires
        capacity <= usize::MAX,
        required <= usize::MAX,
    ensures
        required <= capacity ==> capacity_for(capacity, required) == capacity,
        required > capacity ==> {
            let to = capacity_for(capacity, required);
            let base: nat = if capacity < 1024 * 1024 {
                1024 * 1024
            } else {
                capacity
            };
            &&& required <= to <= usize::MAX
            &&& to >= base
            &&& to == base || to == usize::MAX || to < 2 * required
            &&& to == usize::MAX || exists|k: nat| to == base * #[trigger] vstd::arithmetic::power2::pow2(k)
        },
{
    if required > capacity {
        lemma_doubling(
            if capacity < 1024 * 1024 {
                1024 * 1024
            } else {
                capacity
            },
            required,
        );
    }
}

proof fn lemma_doubling(size: nat, required: nat)
    requires
        0 < size <= usize::MAX,
        required <= usize::MAX,
    ensures
        ({
            let to = doubled(size, required);
            &&& required <= to <= usize::MAX
            &&& to >= size
            &&& to == size || to == usize::MAX || to < 2 * required
            &&& to == usize::MAX || exists|k: nat| to == size * #[trigger] vstd::arithmetic::power2::pow2(k)
        }),
    decreases (if size < required {
        required - size
    } else {
        0
    }),
{
    vstd::arithmetic::power2::lemma2_to64();
    if size >= required {
        assert(size * vstd::arithmetic::power2::pow2(0) == size);
    } else if 2 * size <= usize::MAX {
        lemma_doubling(2 * size, required);
        let to = doubled(size, required);
        if to != usize::MAX {
            let k = choose|k: nat| to == (2 * size) * #[trigger] vstd::arithmetic::power2::pow2(k);
            vstd::arithmetic::power2::lemma_pow2_unfold((k + 1) as nat);
            assert((2 * size) * vstd::arithmetic::power2::pow2(k) == size * (2 * vstd::arithmetic::power2::pow2(k)))
                by (nonlinear_arith);
            assert(to == size * vstd::arithmetic::power2::pow2((k + 1) as nat));
        }
    }
}

/// A scrub counts the strands without a checksum, and those with another than that of their
/// frame.
pub proof fn law_scrub_counts_strands(m: Map<u64, u32>, vs: Seq<StrandView>)
    ensures
        missing(m, vs) == vs.filter(|v: StrandView| !m.dom().contains(v.version)).len(),
        mismatched(m, vs) == vs.filter(
            |v: StrandView| m.dom().contains(v.version) && m[v.version] != crc32_of(strand_frame(v)),
        ).len(),
    decreases vs.len(),
{
    reveal(Seq::filter);
    if vs.len() > 0 {
        law_scrub_counts_strands(m, vs.drop_last());
    }
}

/// A checksum entry is the sequence in eight bytes and the checksum in four, the lowest first.
pub proof fn law_checksum_entry_holds_both_numbers(sequence: u64, crc: u32)
    ensures
        crc_entry(sequence, crc).len() == 12,
        from_le(crc_entry(sequence, crc).subrange(0, 8)) == sequence,
        from_le(crc_entry(sequence, crc).subrange(8, 12)) == crc,
{
    lemma_pow256_values();
    lemma_le_bytes_len(sequence as nat, 8);
    lemma_le_bytes_len(crc as nat, 4);
    lemma_le_round_trip(sequence as nat, 8);
    lemma_le_round_trip(crc as nat, 4);
    assert(crc_entry(sequence, crc).subrange(0, 8) =~= le_bytes(sequence as nat, 8));
    assert(crc_entry(sequence, crc).subrange(8, 12) =~= le_bytes(crc as nat, 4));
}

/// A replica applies an entry exactly when its sequence lies beyond the checkpoint and beyond
/// those of all entries before it.
pub proof fn law_replica_applies_what_is_beyond(entries: Seq<WalEntry>, mark: u64, n: nat, i: int)
    requires
        0 <= i < n <= entries.len() <= usize::MAX,
    ensures
        to_apply(entries, mark, n).contains(i as usize) <==> entries[i].sequence > mark && forall|j: int|
            0 <= j < i ==> (#[trigger] entries[j]).sequence < entries[i].sequence,
        forall|k: int| 0 <= k < to_apply(entries, mark, n).len() ==> #[trigger] to_apply(entries, mark, n)[k] < n,
    decreases n,
{
    let before = to_apply(entries, mark, (n - 1) as nat);
    let now = to_apply(entries, mark, n);
    if n > 1 {
        law_replica_applies_what_is_beyond(
            entries,
            mark,
            (n - 1) as nat,
            if i < n - 1 {
                i
            } else {
                0
            },
        );
    }
    assert forall|k: int| 0 <= k < now.len() implies #[trigger] now[k] < n by {
        if k < before.len() {
            assert(before[k] < n - 1);
        }
    }
    if i < n - 1 {
        if before.contains(i as usize) {
            assert(now[before.index_of(i as usize)] == i as usize);
        }
        if now.contains(i as usize) {
            let q = now.index_of(i as usize);
            if q < before.len() {
                assert(before[q] == i as usize);
            }
        }
    } else {
        lemma_mark_is_highest(entries, mark, (n - 1) as nat);
        if now.contains(i as usize) {
            let q = now.index_of(i as usize);
            if q < before.len() {
                assert(before[q] < n - 1);
            }
        }
        if entries[i].sequence > mark && (forall|j: int| 0 <= j < i ==> (#[trigger] entries[j]).sequence
            < entries[i].sequence) {
            assert(entries[i].sequence > mark_after(entries, mark, (n - 1) as nat));
            assert(now[before.len() as int] == i as usize);
        }
    }
}

proof fn lemma_mark_is_highest(entries: Seq<WalEntry>, mark: u64, n: nat)
    requires
        n <= entries.len(),
    ensures
        mark_after(entries, mark, n) >= mark,
        forall|j: int| 0 <= j < n ==> (#[trigger] entries[j]).sequence <= mark_after(entries, mark, n),
        mark_after(entries, mark, n) == mark || exists|j: int|
            0 <= j < n && (#[trigger] entries[j]).sequence == mark_after(entries, mark, n),
    decreases n,
{
    if n > 0 {
        lemma_mark_is_highest(entries, mark, (n - 1) as nat);
        if entries[n - 1].sequence > mark_after(entries, mark, (n - 1) as nat) {
            assert(entries[n - 1].sequence == mark_after(entries, mark, n));
        }
    }
}

/// The mark after some entries is the highest of the mark before and their sequences.
pub proof fn law_mark_is_the_highest_sequence(entries: Seq<WalEntry>, mark: u64, n: nat)
    requires
        n <= entries.len(),
    ensures
        mark_after(entries, mark, n) >= mark,
        forall|j: int| 0 <= j < n ==> (#[trigger] entries[j]).sequence <= mark_after(entries, mark, n),
        mark_after(entries, mark, n) == mark || exists|j: int|
            0 <= j < n && (#[trigger] entries[j]).sequence == mark_after(entries, mark, n),
{
    lemma_mark_is_highest(entries, mark, n);
}

/// All of an audit entry but its own hash is hashed: entries with the same hashed parts are the
/// same in every other field.
pub proof fn law_audit_hash_covers_the_entry(a: AuditView, b: AuditView)
    requires
        parts(a) == parts(b),
    ensures
        a.audit_id == b.audit_id,
        a.timestamp_ns == b.timestamp_ns,
        a.identity_id == b.identity_id,
        a.overlay == b.overlay,
        a.operation == b.operation,
        a.collection == b.collection,
        a.strand_count == b.strand_count,
        a.fields_returned == b.fields_returned,
        a.query_pattern == b.query_pattern,
        a.client_ip == b.client_ip,
        a.duration_ms == b.duration_ms,
        a.prev_hash == b.prev_hash,
{
}

/// An audit entry says what was done, by whom, where and when, and names the one before it.
pub proof fn law_audit_entry_says_what_was_done(e: AuditView, w: AuditWrite, id: Seq<char>, before: Option<Seq<char>>, i: int)
    requires
        records(e, w, id, before),
    ensures
        e.audit_id == "audit:"@ + id,
        e.timestamp_ns == w.timestamp_ns,
        e.identity_id == w.identity_id@,
        e.overlay == w.overlay@,
        e.operation == w.operation@,
        e.collection == w.collection@,
        e.strand_count == w.strand_count,
        e.fields_returned.len() == w.fields_returned@.len(),
        0 <= i < e.fields_returned.len() ==> e.fields_returned[i] == w.fields_returned@[i]@,
        e.query_pattern == w.query_pattern@,
        e.client_ip == w.client_ip@,
        e.duration_ms == w.duration_ms,
        e.prev_hash == before,
{
}

} // verus!
