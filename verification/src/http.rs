//! The logic of the HTTP surface: counters and their text, durability of bulk inserts, cleaned
//! index settings, and who may see what.
use crate::auth::{session_check, IdentityStore, StoreView};
use crate::bench::options::{read_number, trim_text, trimmed};
use crate::json_value::{clone_record, Record};
use crate::overlay::{
    opens, resolves, Definitions, OverlayAccess, OverlayDefinition, OverlayError,
    OverlayMutation, OverlayRegistry, ResolvedOverlay,
};
use crate::privacy::{mask_records_for_overlay, masked, PrivacyError};
use crate::support::num_text::{decimal, u64_text};
use crate::support::str_map::StrMap;
use crate::support::text::{chars_of, join2, owned, text_of, texts};
use vstd::prelude::*;
use vstd::utf8::encode_utf8;

verus! {

/// Upper ends of the latency buckets, in milliseconds.
pub const LATENCY_BUCKETS_MS: [u64; 9] = [1, 5, 10, 25, 50, 100, 250, 500, 1000];

/// Counters of the server; they wrap around.
#[derive(Debug, Clone, Copy, PartialEq, Eq)]
pub struct HttpMetrics {
    pub requests_total: u64,
    pub errors_total: u64,
    pub overload_rejections_total: u64,
    pub inflight_requests: u64,
    pub request_duration_ms_total: u64,
    pub request_duration_count: u64,
    pub slow_queries_total: u64,
    pub latency_bucket_counts: [u64; 9],
}

/// `a + b` modulo 2^64.
pub open spec fn wrapped(a: u64, b: int) -> u64 {
    ((a + b) % 0x1_0000_0000_0000_0000) as u64
}

/// The first bucket from `k` on that holds a latency.
pub open spec fn bucket_for(ms: u64, k: int) -> Option<int>
    decreases 9 - k,
{
    if k < 0 || k >= 9 {
        None
    } else if ms <= LATENCY_BUCKETS_MS[k] {
        Some(k)
    } else {
        bucket_for(ms, k + 1)
    }
}

/// The buckets after a request that took `ms` milliseconds.
pub open spec fn buckets_after(counts: Seq<u64>, ms: u64) -> Seq<u64> {
    match bucket_for(ms, 0) {
        Some(k) => counts.update(k, wrapped(counts[k], 1)),
        None => counts,
    }
}

impl HttpMetrics {
    /// Counters before the first request.
    pub fn new() -> (r: Self)
        ensures
            r.requests_total == 0,
            r.errors_total == 0,
            r.overload_rejections_total == 0,
            r.inflight_requests == 0,
            r.request_duration_ms_total == 0,
            r.request_duration_count == 0,
            r.slow_queries_total == 0,
            forall|i: int| 0 <= i < 9 ==> #[trigger] r.latency_bucket_counts@[i] == 0,
    {
        HttpMetrics {
            requests_total: 0,
            errors_total: 0,
            overload_rejections_total: 0,
            inflight_requests: 0,
            request_duration_ms_total: 0,
            request_duration_count: 0,
            slow_queries_total: 0,
            latency_bucket_counts: [0, 0, 0, 0, 0, 0, 0, 0, 0],
        }
    }

    /// Counts a request by its status and its time.
    pub fn observe_request(&mut self, status: u16, elapsed_ms: u64)
        ensures
            final(self).requests_total == wrapped(old(self).requests_total, 1),
            final(self).errors_total == (if status >= 500 {
                wrapped(old(self).errors_total, 1)
            } else {
                old(self).errors_total
            }),
            final(self).request_duration_ms_total == wrapped(
                old(self).request_duration_ms_total,
                elapsed_ms as int,
            ),
            final(self).request_duration_count == wrapped(old(self).request_duration_count, 1),
            final(self).latency_bucket_counts@ == buckets_after(old(self).latency_bucket_counts@, elapsed_ms),
            final(self).overload_rejections_total == old(self).overload_rejections_total,
            final(self).inflight_requests == old(self).inflight_requests,
            final(self).slow_queries_total == old(self).slow_queries_total,
    {
        self.requests_total = self.requests_total.wrapping_add(1);
        if status >= 500 {
            self.errors_total = self.errors_total.wrapping_add(1);
        }
        self.request_duration_ms_total = self.request_duration_ms_total.wrapping_add(elapsed_ms);
        self.request_duration_count = self.request_duration_count.wrapping_add(1);
        let bounds = LATENCY_BUCKETS_MS;
        let ghost before = self.latency_bucket_counts@;
        let mut counts = self.latency_bucket_counts;
        let mut k: usize = 0;
        let mut found = false;
        while k < 9 && !found
            invariant
                0 <= k <= 9,
                bounds == LATENCY_BUCKETS_MS,
                !found ==> counts@ == before && bucket_for(elapsed_ms, 0) == bucket_for(elapsed_ms, k as int),
                found ==> counts@ == buckets_after(before, elapsed_ms),
            decreases 9 - k,
        {
            if elapsed_ms <= bounds[k] {
                counts[k] = counts[k].wrapping_add(1);
                found = true;
                proof {
                    assert(counts@ =~= before.update(k as int, wrapped(before[k as int], 1)));
                }
            }
            k += 1;
        }
        self.latency_bucket_counts = counts;
    }

    /// Counts a request that was turned away because all slots were taken.
    pub fn reject_overload(&mut self)
        ensures
            final(self).overload_rejections_total == wrapped(old(self).overload_rejections_total, 1),
            final(self).requests_total == wrapped(old(self).requests_total, 1),
            final(self).errors_total == wrapped(old(self).errors_total, 1),
            final(self).request_duration_ms_total == old(self).request_duration_ms_total,
            final(self).request_duration_count == wrapped(old(self).request_duration_count, 1),
            final(self).latency_bucket_counts@ == buckets_after(old(self).latency_bucket_counts@, 0),
            final(self).inflight_requests == old(self).inflight_requests,
            final(self).slow_queries_total == old(self).slow_queries_total,
    {
        self.overload_rejections_total = self.overload_rejections_total.wrapping_add(1);
        self.observe_request(503, 0);
    }

    /// The counters as text, one type line and one value line each; the buckets are summed up
    /// from below.
    pub fn render(&self) -> (r: String)
        ensures
            r@ == metrics_text(*self),
    {
        let mut out = String::new();
        push_metric(&mut out, "dnadb_http_requests_total", "counter", self.requests_total);
        push_metric(&mut out, "dnadb_http_errors_total", "counter", self.errors_total);
        push_metric(
            &mut out,
            "dnadb_http_overload_rejections_total",
            "counter",
            self.overload_rejections_total,
        );
        let inflight: u64 = self.inflight_requests.saturating_sub(1);
        push_metric(&mut out, "dnadb_http_inflight_requests", "gauge", inflight);
        push_metric(&mut out, "dnadb_http_slow_queries_total", "counter", self.slow_queries_total);
        push_metric(
            &mut out,
            "dnadb_http_request_duration_ms_total",
            "counter",
            self.request_duration_ms_total,
        );
        push_metric(
            &mut out,
            "dnadb_http_request_duration_count",
            "counter",
            self.request_duration_count,
        );
        push_type(&mut out, "dnadb_http_request_duration_ms_bucket", "counter");
        let bounds = LATENCY_BUCKETS_MS;
        let ghost head = out@;
        let mut running: u64 = 0;
        let mut k: usize = 0;
        proof {
            assert(head + bucket_lines(self.latency_bucket_counts@, 0) =~= head);
        }
        while k < 9
            invariant
                0 <= k <= 9,
                bounds == LATENCY_BUCKETS_MS,
                running == running_count(self.latency_bucket_counts@, k as nat),
                out@ == head + bucket_lines(self.latency_bucket_counts@, k as nat),
            decreases 9 - k,
        {
            running = running.saturating_add(self.latency_bucket_counts[k]);
            let ghost before = out@;
            out.append("dnadb_http_request_duration_ms_bucket{le=\"");
            let bound = u64_text(bounds[k]);
            out.append(bound.as_str());
            out.append("\"} ");
            let count = u64_text(running);
            out.append(count.as_str());
            out.append("\n");
            proof {
                let line = bucket_line(LATENCY_BUCKETS_MS[k as int], running);
                assert(out@ =~= before + line);
                let lines = bucket_lines(self.latency_bucket_counts@, k as nat);
                assert((head + lines) + line =~= head + (lines + line));
            }
            k += 1;
        }
        proof {
            assert(out@ =~= metrics_text(*self));
        }
        out
    }
}

/// The line that gives the type of a counter.
pub open spec fn type_line(name: Seq<char>, kind: Seq<char>) -> Seq<char> {
    "# TYPE "@ + name + " "@ + kind + "\n"@
}

/// The lines of a counter.
pub open spec fn metric_lines(name: Seq<char>, kind: Seq<char>, value: u64) -> Seq<char> {
    type_line(name, kind) + (name + " "@ + decimal(value as nat) + "\n"@)
}

/// The line of a bucket.
pub open spec fn bucket_line(bound: u64, count: u64) -> Seq<char> {
    "dnadb_http_request_duration_ms_bucket{le=\""@ + decimal(bound as nat) + "\"} "@ + decimal(count as nat) + "\n"@
}

/// How many requests the first `k` buckets hold, at most the largest number.
pub open spec fn running_count(counts: Seq<u64>, k: nat) -> u64
    decreases k,
{
    if k == 0 {
        0
    } else {
        let sum = running_count(counts, (k - 1) as nat) + counts[k - 1];
        if sum > u64::MAX {
            u64::MAX
        } else {
            sum as u64
        }
    }
}

/// The lines of the first `k` buckets.
pub open spec fn bucket_lines(counts: Seq<u64>, k: nat) -> Seq<char>
    decreases k,
{
    if k == 0 {
        Seq::empty()
    } else {
        bucket_lines(counts, (k - 1) as nat) + bucket_line(LATENCY_BUCKETS_MS[k - 1], running_count(counts, k))
    }
}

/// The counters as text. The request that asks is not counted as in flight.
pub open spec fn metrics_text(m: HttpMetrics) -> Seq<char> {
    metric_lines("dnadb_http_requests_total"@, "counter"@, m.requests_total) + metric_lines(
        "dnadb_http_errors_total"@,
        "counter"@,
        m.errors_total,
    ) + metric_lines("dnadb_http_overload_rejections_total"@, "counter"@, m.overload_rejections_total) + metric_lines(
        "dnadb_http_inflight_requests"@,
        "gauge"@,
        if m.inflight_requests == 0 {
            0
        } else {
            (m.inflight_requests - 1) as u64
        },
    ) + metric_lines("dnadb_http_slow_queries_total"@, "counter"@, m.slow_queries_total) + metric_lines(
        "dnadb_http_request_duration_ms_total"@,
        "counter"@,
        m.request_duration_ms_total,
    ) + metric_lines("dnadb_http_request_duration_count"@, "counter"@, m.request_duration_count) + type_line(
        "dnadb_http_request_duration_ms_bucket"@,
        "counter"@,
    ) + bucket_lines(m.latency_bucket_counts@, 9)
}

fn push_type(out: &mut String, name: &str, kind: &str)
    ensures
        final(out)@ == old(out)@ + type_line(name@, kind@),
{
    let ghost before = out@;
    out.append("# TYPE ");
    out.append(name);
    out.append(" ");
    out.append(kind);
    out.append("\n");
    proof {
        assert(out@ =~= before + type_line(name@, kind@));
    }
}

fn push_metric(out: &mut String, name: &str, kind: &str, value: u64)
    ensures
        final(out)@ == old(out)@ + metric_lines(name@, kind@, value),
{
    let ghost before = out@;
    push_type(out, name, kind);
    out.append(name);
    out.append(" ");
    let digits = u64_text(value);
    out.append(digits.as_str());
    out.append("\n");
    proof {
        assert(out@ =~= before + metric_lines(name@, kind@, value));
    }
}

/// When the files of a bulk insert reach the disk.
#[derive(Debug, Clone, Copy, PartialEq, Eq, Structural)]
pub enum DurabilityMode {
    /// Before the answer.
    Strict,
    /// As deferred; kept for group commits.
    Batch,
    /// Later.
    Deferred,
}

/// Whether the strand files of a bulk insert may be synced later, and the mode that this is: as
/// asked for; else by the older switches, of which the one for files goes before the one for
/// indexes.
pub fn resolve_bulk_strand_durability(
    durability: Option<DurabilityMode>,
    defer_storage_fsync: Option<bool>,
    defer_reindex: bool,
) -> (r: (bool, DurabilityMode))
    ensures
        match durability {
            Some(m) => r == (m != DurabilityMode::Strict, m),
            None => {
                let later = match defer_storage_fsync {
                    Some(d) => d,
                    None => defer_reindex,
                };
                r == (later, if later {
                    DurabilityMode::Deferred
                } else {
                    DurabilityMode::Strict
                })
            },
        },
{
    if let Some(mode) = durability {
        return (mode != DurabilityMode::Strict, mode);
    }
    let later = match defer_storage_fsync {
        Some(d) => d,
        None => defer_reindex,
    };
    if later {
        (true, DurabilityMode::Deferred)
    } else {
        (false, DurabilityMode::Strict)
    }
}

/// An answer that is no success: its status and what it says.
#[derive(Debug, PartialEq, Eq)]
pub struct ApiError {
    pub status: u16,
    pub message: String,
}

impl ApiError {
    /// The request makes no sense.
    pub fn bad_request(message: String) -> (r: Self)
        ensures
            r.status == 400,
            r.message@ == message@,
    {
        ApiError { status: 400, message }
    }

    /// The engine failed.
    pub fn runtime(message: String) -> (r: Self)
        ensures
            r.status == 500,
            r.message@ == message@,
    {
        ApiError { status: 500, message }
    }

    /// The bearer is not known.
    pub fn unauthorized(message: String) -> (r: Self)
        ensures
            r.status == 401,
            r.message@ == message@,
    {
        ApiError { status: 401, message }
    }

    /// The bearer may not see the collection.
    pub fn privacy(e: PrivacyError) -> (r: Self)
        ensures
            r.status == 403,
            r.message@ == "collection is not accessible in overlay: "@ + e->CollectionDenied_0@,
    {
        ApiError { status: 403, message: e.message() }
    }
}

/// A positive number that a setting asks for, or else the default.
pub open spec fn positive_or(text: Option<Seq<char>>, default: usize) -> usize {
    match text {
        Some(t) => match crate::bench::options::number_in(encode_utf8(t), usize::MAX as u64) {
            Ok(v) => if v > 0 {
                v as usize
            } else {
                default
            },
            Err(_) => default,
        },
        None => default,
    }
}

/// A positive number that a setting asks for, or else the default.
pub fn positive_setting(text: Option<&str>, default: usize) -> (r: usize)
    ensures
        r == positive_or(
            match text {
                Some(t) => Some(t@),
                None => None,
            },
            default,
        ),
{
    match text {
        Some(t) => match read_number(t, usize::MAX as u64) {
            Ok(v) => {
                if v > 0 {
                    v as usize
                } else {
                    default
                }
            },
            Err(_) => default,
        },
        None => default,
    }
}

/// Refuses a batch of more documents than are allowed.
pub fn check_batch_size(documents: usize, max_batch: usize) -> (r: Result<(), ApiError>)
    ensures
        match r {
            Ok(_) => documents <= max_batch,
            Err(e) => documents > max_batch && e.status == 400 && e.message@ == "batch too large (max "@ + decimal(
                max_batch as nat,
            ) + ")"@,
        },
{
    if documents > max_batch {
        let digits = u64_text(max_batch as u64);
        let mut m = join2("batch too large (max ", digits.as_str());
        m.append(")");
        return Err(ApiError::bad_request(m));
    }
    Ok(())
}

/// The first `n` names, trimmed, without those that are blank.
pub open spec fn clean_names(names: Seq<Seq<char>>, n: nat) -> Seq<Seq<char>>
    decreases n,
{
    if n == 0 {
        Seq::empty()
    } else {
        let before = clean_names(names, (n - 1) as nat);
        let t = trimmed(names[n - 1]);
        if t.len() == 0 {
            before
        } else {
            before.push(t)
        }
    }
}

/// Field names, trimmed, without those that are blank.
pub fn trimmed_fields(names: &Vec<String>) -> (r: Vec<String>)
    ensures
        texts(r@) == clean_names(texts(names@), names@.len()),
{
    let ghost all = texts(names@);
    let mut out: Vec<String> = Vec::new();
    let mut i: usize = 0;
    proof {
        assert(texts(out@) =~= clean_names(all, 0));
    }
    while i < names.len()
        invariant
            0 <= i <= names@.len(),
            all == texts(names@),
            texts(out@) == clean_names(all, i as nat),
        decreases names@.len() - i,
    {
        let t = trim_text(names[i].as_str());
        let ghost before = out@;
        proof {
            assert(all[i as int] == names@[i as int]@);
        }
        if !t.as_str().is_empty() {
            let ghost here = t@;
            out.push(t);
            proof {
                assert(texts(out@) =~= texts(before).push(here));
            }
        }
        i += 1;
    }
    out
}

/// The two fields of a composite index: exactly two names, neither blank.
pub open spec fn field_pair(names: Seq<Seq<char>>) -> Option<(Seq<char>, Seq<char>)> {
    if names.len() == 2 && trimmed(names[0]).len() > 0 && trimmed(names[1]).len() > 0 {
        Some((trimmed(names[0]), trimmed(names[1])))
    } else {
        None
    }
}

/// The pairs that the first `n` specifications stand for; others are passed over.
pub open spec fn field_pairs(specs: Seq<Vec<String>>, n: nat) -> Seq<(Seq<char>, Seq<char>)>
    decreases n,
{
    if n == 0 {
        Seq::empty()
    } else {
        match field_pair(texts(specs[n - 1]@)) {
            Some(p) => field_pairs(specs, (n - 1) as nat).push(p),
            None => field_pairs(specs, (n - 1) as nat),
        }
    }
}

/// The characters of pairs.
pub open spec fn pair_views(v: Seq<(String, String)>) -> Seq<(Seq<char>, Seq<char>)> {
    Seq::new(v.len(), |i: int| (v[i].0@, v[i].1@))
}

/// The composite indexes that specifications ask for.
pub fn composite_definitions(specs: &Vec<Vec<String>>) -> (r: Vec<(String, String)>)
    ensures
        pair_views(r@) == field_pairs(specs@, specs@.len()),
{
    let mut out: Vec<(String, String)> = Vec::new();
    let mut i: usize = 0;
    proof {
        assert(pair_views(out@) =~= field_pairs(specs@, 0));
    }
    while i < specs.len()
        invariant
            0 <= i <= specs@.len(),
            pair_views(out@) == field_pairs(specs@, i as nat),
        decreases specs@.len() - i,
    {
        let spec_fields = &specs[i];
        let ghost names = texts(spec_fields@);
        if spec_fields.len() == 2 {
            proof {
                assert(names[0] == spec_fields@[0]@ && names[1] == spec_fields@[1]@);
            }
            let a = trim_text(spec_fields[0].as_str());
            let b = trim_text(spec_fields[1].as_str());
            if !a.as_str().is_empty() && !b.as_str().is_empty() {
                let ghost before = out@;
                let ghost pair = (a@, b@);
                out.push((a, b));
                proof {
                    assert(pair_views(out@) =~= pair_views(before).push(pair));
                }
            }
        }
        i += 1;
    }
    out
}

/// The token of an authorization header: what follows `Bearer `, or `bearer `.
pub open spec fn bearer(header: Seq<char>) -> Option<Seq<char>> {
    if header.len() >= 7 && (header.take(7) == "Bearer "@ || header.take(7) == "bearer "@) {
        Some(header.skip(7))
    } else {
        None
    }
}

/// The field that a request names for an index, without white space around it; a blank one is
/// refused.
pub fn index_field(text: &str) -> (r: Result<String, ApiError>)
    ensures
        match r {
            Ok(f) => f@ == trimmed(text@) && f@.len() > 0,
            Err(e) => trimmed(text@).len() == 0 && e.status == 400 && e.message@ == "field is required"@,
        },
{
    let field = trim_text(text);
    if field.as_str().is_empty() {
        return Err(ApiError::bad_request(owned("field is required")));
    }
    Ok(field)
}

/// The token of an authorization header.
pub fn bearer_token(header: &str) -> (r: Option<String>)
    ensures
        match r {
            Some(t) => bearer(header@) == Some(t@),
            None => bearer(header@) is None,
        },
{
    let chars = chars_of(header);
    let n: usize = chars.len();
    if n < 7 {
        return None;
    }
    proof {
        reveal_strlit("Bearer ");
        reveal_strlit("bearer ");
    }
    let ok = (chars[0] == 'B' || chars[0] == 'b') && chars[1] == 'e' && chars[2] == 'a' && chars[3] == 'r' && chars[4]
        == 'e' && chars[5] == 'r' && chars[6] == ' ';
    proof {
        let h = header@.take(7);
        if ok {
            if chars@[0] == 'B' {
                assert(h =~= "Bearer "@);
            } else {
                assert(h =~= "bearer "@);
            }
        } else {
            let x = "Bearer "@;
            let y = "bearer "@;
            assert(h[0] == chars@[0] && h[1] == chars@[1] && h[2] == chars@[2] && h[3] == chars@[3] && h[4] == chars@[4]
                && h[5] == chars@[5] && h[6] == chars@[6]);
            assert(h != x);
            assert(h != y);
        }
    }
    if !ok {
        return None;
    }
    proof {
        assert(chars@.subrange(7, n as int) =~= header@.skip(7));
    }
    Some(text_of(&chars, 7, n))
}

/// Whether a request is let in: anyone where no login is asked for, else the bearer of a good
/// session with an overlay that resolves. Everyone else gets the same answer.
pub open spec fn admits(
    r: Result<Option<ResolvedOverlay>, ApiError>,
    required: bool,
    header: Option<Seq<char>>,
    defs: Definitions,
    store: StoreView,
    now: u64,
) -> bool {
    match r {
        Ok(None) => !required,
        Ok(Some(o)) => {
            &&& required
            &&& header matches Some(h) && bearer(h) matches Some(t) && session_check(store, t, now) matches Ok(s)
                && resolves(Ok(o), defs, s.overlay)
        },
        Err(e) => {
            &&& required
            &&& e.status == 401
            &&& e.message@ == "unauthorized"@
            &&& match header {
                None => true,
                Some(h) => match bearer(h) {
                    None => true,
                    Some(t) => match session_check(store, t, now) {
                        Err(_) => true,
                        Ok(s) => exists|f: OverlayError| #[trigger] resolves(Err(f), defs, s.overlay),
                    },
                },
            }
        },
    }
}

/// Lets a request in at the time `now`, or turns it away.
pub fn authorize_at(
    required: bool,
    header: Option<&str>,
    overlays: &OverlayRegistry,
    auth: &IdentityStore,
    now: u64,
) -> (r: Result<Option<ResolvedOverlay>, ApiError>)
    ensures
        admits(
            r,
            required,
            match header {
                Some(h) => Some(h@),
                None => None,
            },
            overlays.defs(),
            auth@,
            now,
        ),
{
    if !required {
        return Ok(None);
    }
    let token = match header {
        Some(h) => bearer_token(h),
        None => None,
    };
    let token = match token {
        Some(t) => t,
        None => {
            return Err(ApiError::unauthorized(owned("unauthorized")));
        },
    };
    match overlays.resolve_for_session_at(auth, token.as_str(), now) {
        Ok((_, overlay)) => Ok(Some(overlay)),
        Err(e) => {
            proof {
                if let Ok(s) = session_check(auth@, token@, now) {
                    assert(resolves(Err(e), overlays.defs(), s.overlay));
                }
            }
            Err(ApiError::unauthorized(owned("unauthorized")))
        },
    }
}

/// The rows of an answer: as they are, or as the bearer's overlay shows them.
pub fn rows_for(collection: &str, rows: &[Record], overlay: Option<&ResolvedOverlay>) -> (r: Result<Vec<Record>, ApiError>)
    ensures
        match (r, overlay) {
            (Ok(out), None) => out@.len() == rows@.len() && forall|i: int|
                0 <= i < out@.len() ==> (#[trigger] out@[i])@ == rows@[i]@,
            (Ok(out), Some(o)) => {
                &&& rows@.len() == 0 || opens(o@, collection@)
                &&& out@.len() == rows@.len()
                &&& forall|i: int|
                    0 <= i < out@.len() ==> (#[trigger] out@[i])@ == masked(rows@[i]@, o@, collection@)
            },
            (Err(e), Some(o)) => {
                &&& rows@.len() > 0
                &&& !opens(o@, collection@)
                &&& e.status == 403
                &&& e.message@ == "collection is not accessible in overlay: "@ + collection@
            },
            (Err(_), None) => false,
        },
{
    match overlay {
        Some(o) => match mask_records_for_overlay(collection, rows, o) {
            Ok(out) => Ok(out),
            Err(e) => Err(ApiError::privacy(e)),
        },
        None => {
            let mut out: Vec<Record> = Vec::new();
            let mut i: usize = 0;
            while i < rows.len()
                invariant
                    0 <= i <= rows@.len(),
                    out@.len() == i,
                    forall|k: int| 0 <= k < i ==> (#[trigger] out@[k])@ == rows@[k]@,
                decreases rows@.len() - i,
            {
                out.push(clone_record(&rows[i]));
                i += 1;
            }
            Ok(out)
        },
    }
}

fn names(list: &[&str]) -> (r: Vec<String>)
    ensures
        r@.len() == list@.len(),
        forall|i: int| 0 <= i < r@.len() ==> (#[trigger] r@[i])@ == list@[i]@,
{
    let mut out: Vec<String> = Vec::new();
    let mut i: usize = 0;
    while i < list.len()
        invariant
            0 <= i <= list@.len(),
            out@.len() == i,
            forall|k: int| 0 <= k < i ==> (#[trigger] out@[k])@ == list@[k]@,
        decreases list@.len() - i,
    {
        out.push(owned(list[i]));
        i += 1;
    }
    out
}

/// The overlay of readers who see posts without their text, address and author.
pub fn redacted_overlay() -> (r: OverlayDefinition)
    ensures
        r.name@ == "redacted"@,
        r.access == OverlayAccess::Partial,
        texts(r.collections@) == seq!["posts"@],
        r.include_fields@.dom() == set!["posts"@],
        texts(r.include_fields@["posts"@]@) == seq!["id"@, "title"@, "status"@],
        r.exclude_fields@.dom() == set!["posts"@],
        texts(r.exclude_fields@["posts"@]@) == seq!["body"@, "slug"@, "author_email"@],
        r.mutations@ == seq![OverlayMutation::Read],
        r.extends is None,
        r.additionally_include@ == Map::<Seq<char>, Vec<String>>::empty(),
{
    let shown = names(&["id", "title", "status"]);
    let hidden = names(&["body", "slug", "author_email"]);
    let collections = names(&["posts"]);
    let mutations = vec![OverlayMutation::Read];
    proof {
        assert(texts(shown@) =~= seq!["id"@, "title"@, "status"@]);
        assert(texts(hidden@) =~= seq!["body"@, "slug"@, "author_email"@]);
        assert(texts(collections@) =~= seq!["posts"@]);
        assert(mutations@ =~= seq![OverlayMutation::Read]);
    }
    let mut include_fields: StrMap<Vec<String>> = StrMap::new();
    let _ = include_fields.insert(owned("posts"), shown);
    let mut exclude_fields: StrMap<Vec<String>> = StrMap::new();
    let _ = exclude_fields.insert(owned("posts"), hidden);
    proof {
        assert(include_fields@.dom() =~= set!["posts"@]);
        assert(exclude_fields@.dom() =~= set!["posts"@]);
    }
    OverlayDefinition {
        name: owned("redacted"),
        access: OverlayAccess::Partial,
        collections,
        include_fields,
        exclude_fields,
        mutations,
        extends: None,
        additionally_include: StrMap::new(),
    }
}

/// Where a login is asked for, nobody without a good session is let in: the answer is 401.
pub proof fn law_strangers_are_turned_away(
    r: Result<Option<ResolvedOverlay>, ApiError>,
    header: Option<Seq<char>>,
    defs: Definitions,
    store: StoreView,
    now: u64,
)
    requires
        admits(r, true, header, defs, store, now),
        header matches Some(h) ==> (bearer(h) matches Some(t) ==> session_check(store, t, now) is Err),
    ensures
        r matches Err(e) && e.status == 401,
{
}

/// Every latency up to the last bound is counted in exactly one bucket, the first that holds
/// it.
pub proof fn law_latencies_are_bucketed(ms: u64)
    ensures
        ms <= 1000 <==> bucket_for(ms, 0) is Some,
        bucket_for(ms, 0) matches Some(k) ==> 0 <= k < 9 && ms <= LATENCY_BUCKETS_MS[k] && forall|j: int|
            0 <= j < k ==> ms > #[trigger] LATENCY_BUCKETS_MS[j],
{
    lemma_bucket_for(ms, 0);
    assert(LATENCY_BUCKETS_MS[8] == 1000);
    assert forall|j: int| 0 <= j < 9 implies #[trigger] LATENCY_BUCKETS_MS[j] <= 1000 by {}
}

proof fn lemma_bucket_for(ms: u64, k: int)
    requires
        0 <= k <= 9,
    ensures
        match bucket_for(ms, k) {
            Some(i) => k <= i < 9 && ms <= LATENCY_BUCKETS_MS[i] && forall|j: int|
                k <= j < i ==> ms > #[trigger] LATENCY_BUCKETS_MS[j],
            None => forall|j: int| k <= j < 9 ==> ms > #[trigger] LATENCY_BUCKETS_MS[j],
        },
    decreases 9 - k,
{
    if k < 9 {
        lemma_bucket_for(ms, k + 1);
    }
}

} // verus!
