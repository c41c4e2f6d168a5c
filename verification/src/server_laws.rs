//! Whom the server lets in, how it counts, and how it reads names and settings.
use crate::auth::StoreView;
use crate::bench::options::{number_in, trimmed};
use crate::clock::nanos_in;
use crate::group_commit::{sync_due, GroupCommitPolicy};
use crate::http::{
    admits, bearer, bucket_for, buckets_after, clean_names, field_pairs, positive_or,
    running_count, wrapped, ApiError, LATENCY_BUCKETS_MS,
};
use crate::overlay::{resolves, Definitions, OverlayError, ResolvedOverlay};
use crate::overlay_laws::{law_resolution_succeeds_for_whole_lineages, whole_lineage};
use crate::runtime::log_collection;
use crate::support::text::{is_space, texts};
use vstd::prelude::*;
use vstd::utf8::encode_utf8;

verus! {

/// The token of a header is what stands behind `Bearer ` or `bearer `, and a header that starts
/// otherwise has none.
pub proof fn law_bearer_header(header: Seq<char>, token: Seq<char>)
    ensures
        bearer("Bearer "@ + token) == Some(token),
        bearer("bearer "@ + token) == Some(token),
        bearer(header) is Some ==> header == "Bearer "@ + bearer(header)->0 || header == "bearer "@ + bearer(header)->0,
{
    reveal_strlit("Bearer ");
    reveal_strlit("bearer ");
    assert(("Bearer "@ + token).take(7) =~= "Bearer "@);
    assert(("Bearer "@ + token).skip(7) =~= token);
    assert(("bearer "@ + token).take(7) =~= "bearer "@);
    assert(("bearer "@ + token).skip(7) =~= token);
    if bearer(header) is Some {
        assert(header =~= header.take(7) + header.skip(7));
    }
}

/// Where no login is asked for, everyone is let in without an overlay. Where one is, the bearer
/// of a good session with a whole lineage is let in with the overlay of that session, and
/// everyone else is answered alike.
pub proof fn law_bearers_of_good_sessions_are_let_in(
    r: Result<Option<ResolvedOverlay>, ApiError>,
    required: bool,
    header: Option<Seq<char>>,
    token: Seq<char>,
    names: Seq<Seq<char>>,
    defs: Definitions,
    store: StoreView,
    now: u64,
)
    requires
        admits(r, required, header, defs, store, now),
    ensures
        !required ==> r is Ok && r->Ok_0 is None,
        required && header == Some("Bearer "@ + token) && store.sessions.dom().contains(token)
            && !store.sessions[token].revoked && now < store.sessions[token].expires_at_ns && whole_lineage(
            defs,
            names,
            store.sessions[token].overlay,
        ) ==> r is Ok && r->Ok_0 is Some && r->Ok_0->0@.access == defs[store.sessions[token].overlay].access,
        required && (header is None || bearer(header->0) is None) ==> r is Err,
        required && header == Some("Bearer "@ + token) && (!store.sessions.dom().contains(token)
            || store.sessions[token].revoked || now >= store.sessions[token].expires_at_ns) ==> r is Err,
        r matches Err(e) ==> e.status == 401 && e.message@ == "unauthorized"@,
{
    law_bearer_header(Seq::empty(), token);
    if required && header == Some("Bearer "@ + token) && store.sessions.dom().contains(token)
        && !store.sessions[token].revoked && now < store.sessions[token].expires_at_ns && whole_lineage(
        defs,
        names,
        store.sessions[token].overlay,
    ) {
        let name = store.sessions[token].overlay;
        if r is Err {
            let f = choose|f: OverlayError| #[trigger] resolves(Err(f), defs, name);
            law_resolution_succeeds_for_whole_lineages(Err(f), defs, name);
        } else {
            crate::overlay_laws::law_resolved_overlay_joins_its_lineage(
                r->Ok_0->0,
                defs,
                name,
                names,
                Seq::empty(),
                Seq::empty(),
                crate::overlay::OverlayMutation::Read,
            );
        }
    }
}

/// A request is counted in the first bucket that its time fits, of those up to 1, 5, 10, 25, 50,
/// 100, 250, 500 and 1000 milliseconds, and in no other; one that took longer in none.
pub proof fn law_request_is_counted_in_one_bucket(counts: Seq<u64>, ms: u64, k: int, j: int)
    requires
        counts.len() == 9,
        0 <= j < 9,
    ensures
        LATENCY_BUCKETS_MS@ =~= seq![1u64, 5, 10, 25, 50, 100, 250, 500, 1000],
        0 <= k < 9 && ms <= LATENCY_BUCKETS_MS[k] && (forall|i: int| 0 <= i < k ==> ms > #[trigger] LATENCY_BUCKETS_MS[i])
            ==> buckets_after(counts, ms)[j] == (if j == k {
            wrapped(counts[j], 1)
        } else {
            counts[j]
        }),
        ms > 1000 ==> buckets_after(counts, ms)[j] == counts[j],
        counts[j] < u64::MAX ==> wrapped(counts[j], 1) == counts[j] + 1,
{
    crate::http::law_latencies_are_bucketed(ms);
    if 0 <= k < 9 && ms <= LATENCY_BUCKETS_MS[k] && (forall|i: int|
        0 <= i < k ==> ms > #[trigger] LATENCY_BUCKETS_MS[i]) {
        assert(LATENCY_BUCKETS_MS[k] <= 1000);
        let q = bucket_for(ms, 0)->0;
        if q < k {
            assert(ms > LATENCY_BUCKETS_MS[q]);
        } else if k < q {
            assert(ms > LATENCY_BUCKETS_MS[k]);
        }
    }
}

/// The counts that are reported add up: each bucket to those before it, as long as the sum can be
/// held.
pub proof fn law_reported_counts_add_up(counts: Seq<u64>, k: nat)
    requires
        k < counts.len(),
    ensures
        running_count(counts, 0) == 0,
        running_count(counts, k) + counts[k as int] <= u64::MAX ==> running_count(counts, k + 1) == running_count(
            counts,
            k,
        ) + counts[k as int],
        running_count(counts, k) + counts[k as int] > u64::MAX ==> running_count(counts, k + 1) == u64::MAX,
{
}

/// A text is what is left of it without the white space at its ends, and that.
pub proof fn law_trimming_takes_white_space_off_the_ends(s: Seq<char>) -> (ends: (int, int))
    ensures
        0 <= ends.0 <= ends.1 <= s.len(),
        trimmed(s) =~= s.subrange(ends.0, ends.1),
        forall|i: int| 0 <= i < ends.0 ==> is_space(#[trigger] s[i]),
        forall|i: int| ends.1 <= i < s.len() ==> is_space(#[trigger] s[i]),
        trimmed(s).len() > 0 ==> !is_space(trimmed(s)[0]) && !is_space(trimmed(s).last()),
    decreases s.len(),
{
    if s.len() == 0 {
        (0, 0)
    } else if is_space(s[0]) {
        let t = s.skip(1);
        let e = law_trimming_takes_white_space_off_the_ends(t);
        assert forall|i: int| 0 <= i < e.0 + 1 implies is_space(#[trigger] s[i]) by {
            if i > 0 {
                assert(t[i - 1] == s[i]);
            }
        }
        assert forall|i: int| e.1 + 1 <= i < s.len() implies is_space(#[trigger] s[i]) by {
            assert(t[i - 1] == s[i]);
        }
        (e.0 + 1, e.1 + 1)
    } else if is_space(s.last()) {
        let t = s.drop_last();
        let e = law_trimming_takes_white_space_off_the_ends(t);
        assert forall|i: int| 0 <= i < e.0 implies is_space(#[trigger] s[i]) by {
            assert(t[i] == s[i]);
        }
        assert forall|i: int| e.1 <= i < s.len() implies is_space(#[trigger] s[i]) by {
            if i < t.len() {
                assert(t[i] == s[i]);
            }
        }
        (e.0, e.1)
    } else {
        (0, s.len() as int)
    }
}

/// The names that are left are the trimmed ones that are not blank.
pub proof fn law_blank_names_are_left_out(names: Seq<Seq<char>>, n: nat, t: Seq<char>)
    requires
        n <= names.len(),
    ensures
        clean_names(names, n).contains(t) <==> t.len() > 0 && exists|i: int|
            0 <= i < n && trimmed(#[trigger] names[i]) == t,
        clean_names(names, n).len() == names.take(n as int).filter(|s: Seq<char>| trimmed(s).len() > 0).len(),
    decreases n,
{
    reveal(Seq::filter);
    if n > 0 {
        law_blank_names_are_left_out(names, (n - 1) as nat, t);
        let before = clean_names(names, (n - 1) as nat);
        let now = clean_names(names, n);
        assert(names.take(n as int).drop_last() =~= names.take(n - 1));
        if before.contains(t) {
            assert(now[before.index_of(t)] == t);
        }
        if now.contains(t) {
            let q = now.index_of(t);
            if q < before.len() {
                assert(before[q] == t);
            } else {
                assert(trimmed(names[n - 1]) == t);
            }
        }
        if trimmed(names[n - 1]) == t && t.len() > 0 {
            assert(now[before.len() as int] == t);
        }
    }
}

/// A pair of fields is asked for exactly where a specification has two names, neither blank.
pub proof fn law_pairs_are_two_names(specs: Seq<Vec<String>>, n: nat, a: Seq<char>, b: Seq<char>)
    requires
        n <= specs.len(),
    ensures
        field_pairs(specs, n).contains((a, b)) <==> a.len() > 0 && b.len() > 0 && exists|i: int|
            0 <= i < n && (#[trigger] specs[i])@.len() == 2 && trimmed(specs[i]@[0]@) == a && trimmed(specs[i]@[1]@) == b,
    decreases n,
{
    if n > 0 {
        law_pairs_are_two_names(specs, (n - 1) as nat, a, b);
        let before = field_pairs(specs, (n - 1) as nat);
        let now = field_pairs(specs, n);
        let last = texts(specs[n - 1]@);
        if before.contains((a, b)) {
            assert(now[before.index_of((a, b))] == (a, b));
        }
        if now.contains((a, b)) {
            let q = now.index_of((a, b));
            if q < before.len() {
                assert(before[q] == (a, b));
            } else {
                assert(last[0] == specs[n - 1]@[0]@ && last[1] == specs[n - 1]@[1]@);
            }
        }
        if specs[n - 1]@.len() == 2 && trimmed(specs[n - 1]@[0]@) == a && trimmed(specs[n - 1]@[1]@) == b && a.len() > 0
            && b.len() > 0 {
            assert(last[0] == specs[n - 1]@[0]@ && last[1] == specs[n - 1]@[1]@);
            assert(now[before.len() as int] == (a, b));
        }
    }
}

/// A setting counts where it is a number above zero; the default does where it is not, or where
/// there is none.
pub proof fn law_settings_above_zero_count(text: Seq<char>, default: usize)
    ensures
        positive_or(None, default) == default,
        number_in(encode_utf8(text), usize::MAX as u64) is Err ==> positive_or(Some(text), default) == default,
        number_in(encode_utf8(text), usize::MAX as u64) is Ok && number_in(encode_utf8(text), usize::MAX as u64)->Ok_0
            == 0 ==> positive_or(Some(text), default) == default,
        number_in(encode_utf8(text), usize::MAX as u64) is Ok && 0 < number_in(
            encode_utf8(text),
            usize::MAX as u64,
        )->Ok_0 <= usize::MAX ==> positive_or(Some(text), default) == number_in(
            encode_utf8(text),
            usize::MAX as u64,
        )->Ok_0,
{
}

/// A log file belongs to the collection that it is named after, with `.wal` behind; a name that
/// ends otherwise, or is blank before that, belongs to none.
pub proof fn law_log_files_are_named_after_their_collection(file: Seq<char>, name: Seq<char>, i: int)
    ensures
        0 <= i < name.len() && !is_space(name[i]) ==> log_collection(name + ".wal"@) == Some(name),
        log_collection(file) is Some ==> file == log_collection(file)->0 + ".wal"@ && exists|k: int|
            0 <= k < log_collection(file)->0.len() && !is_space(#[trigger] log_collection(file)->0[k]),
{
    reveal_strlit(".wal");
    let f = name + ".wal"@;
    assert(f.skip(f.len() - 4) =~= ".wal"@);
    assert(f.take(f.len() - 4) =~= name);
    if log_collection(file) is Some {
        let n = file.len() - 4;
        assert(file =~= file.take(n) + file.skip(n));
    }
}

/// A group is synced as soon as it has its full number of records, one at least, or has waited
/// its full time; not before.
pub proof fn law_groups_are_synced_when_full_or_old(policy: GroupCommitPolicy, pending: nat, waited: u128)
    ensures
        pending >= 1 && pending >= policy.max_batch ==> sync_due(policy, pending, waited),
        policy.max_interval is Some && waited >= nanos_in(policy.max_interval->0) ==> sync_due(policy, pending, waited),
        (pending == 0 || pending < policy.max_batch) && (policy.max_interval is None || waited < nanos_in(
            policy.max_interval->0,
        )) ==> !sync_due(policy, pending, waited),
{
}

} // verus!
