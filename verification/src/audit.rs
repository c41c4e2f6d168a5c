//! An append-only audit log whose entries are linked by hashes.
use crate::digest::{blake3_digest, blake3_hex};
use crate::ids::{is_random_id, random_id, simple_text};
use crate::support::num_text::hex;
use crate::support::text::{clone_strings, join2, str_eq, texts};
use vstd::prelude::*;

verus! {

/// An entry of the log.
#[derive(Debug, PartialEq, Eq)]
pub struct AuditEntry {
    pub audit_id: String,
    pub timestamp_ns: u64,
    pub identity_id: String,
    pub overlay: String,
    pub operation: String,
    pub collection: String,
    pub strand_count: u64,
    pub fields_returned: Vec<String>,
    pub query_pattern: String,
    pub client_ip: String,
    pub duration_ms: u64,
    pub prev_hash: Option<String>,
    pub entry_hash: String,
}

/// What is to be logged.
#[derive(Debug)]
pub struct AuditWrite {
    pub timestamp_ns: u64,
    pub identity_id: String,
    pub overlay: String,
    pub operation: String,
    pub collection: String,
    pub strand_count: u64,
    pub fields_returned: Vec<String>,
    pub query_pattern: String,
    pub client_ip: String,
    pub duration_ms: u64,
}

/// What an [`AuditEntry`] holds.
pub struct AuditView {
    pub audit_id: Seq<char>,
    pub timestamp_ns: u64,
    pub identity_id: Seq<char>,
    pub overlay: Seq<char>,
    pub operation: Seq<char>,
    pub collection: Seq<char>,
    pub strand_count: u64,
    pub fields_returned: Seq<Seq<char>>,
    pub query_pattern: Seq<char>,
    pub client_ip: Seq<char>,
    pub duration_ms: u64,
    pub prev_hash: Option<Seq<char>>,
    pub entry_hash: Seq<char>,
}

/// The characters of an optional text.
pub open spec fn text_option(s: Option<String>) -> Option<Seq<char>> {
    match s {
        Some(x) => Some(x@),
        None => None,
    }
}

impl View for AuditEntry {
    type V = AuditView;

    open spec fn view(&self) -> AuditView {
        AuditView {
            audit_id: self.audit_id@,
            timestamp_ns: self.timestamp_ns,
            identity_id: self.identity_id@,
            overlay: self.overlay@,
            operation: self.operation@,
            collection: self.collection@,
            strand_count: self.strand_count,
            fields_returned: texts(self.fields_returned@),
            query_pattern: self.query_pattern@,
            client_ip: self.client_ip@,
            duration_ms: self.duration_ms,
            prev_hash: text_option(self.prev_hash),
            entry_hash: self.entry_hash@,
        }
    }
}

impl Clone for AuditEntry {
    fn clone(&self) -> (r: Self)
        ensures
            r@ == self@,
    {
        AuditEntry {
            audit_id: self.audit_id.clone(),
            timestamp_ns: self.timestamp_ns,
            identity_id: self.identity_id.clone(),
            overlay: self.overlay.clone(),
            operation: self.operation.clone(),
            collection: self.collection.clone(),
            strand_count: self.strand_count,
            fields_returned: clone_strings(&self.fields_returned),
            query_pattern: self.query_pattern.clone(),
            client_ip: self.client_ip.clone(),
            duration_ms: self.duration_ms,
            prev_hash: match &self.prev_hash {
                Some(h) => Some(h.clone()),
                None => None,
            },
            entry_hash: self.entry_hash.clone(),
        }
    }
}

/// What a sequence of entries holds.
pub open spec fn audit_views(s: Seq<AuditEntry>) -> Seq<AuditView> {
    Seq::new(s.len(), |i: int| s[i]@)
}

/// Why the log could not be written, or where it is broken.
#[derive(Debug)]
pub enum AuditError {
    IntegrityFailure(usize),
    Serialize(bincode::Error),
}

/// What of an entry is hashed: the hash before it, its number and time; identity, overlay,
/// operation and collection; the strand count; the fields; pattern and address; the duration.
pub type AuditParts = (
    (Option<Seq<char>>, Seq<char>, u64),
    (Seq<char>, Seq<char>, Seq<char>, Seq<char>),
    u64,
    Seq<Seq<char>>,
    (Seq<char>, Seq<char>),
    u64,
);

/// What of an entry is hashed.
pub open spec fn parts(e: AuditView) -> AuditParts {
    (
        (e.prev_hash, e.audit_id, e.timestamp_ns),
        (e.identity_id, e.overlay, e.operation, e.collection),
        e.strand_count,
        e.fields_returned,
        (e.query_pattern, e.client_ip),
        e.duration_ms,
    )
}

/// The bytes that `bincode` writes for what is hashed of an entry.
pub uninterp spec fn bincode_audit(p: AuditParts) -> Seq<u8>;

/// `bincode::serialize` on the twelve hashed values of an entry. The bytes are a function of
/// the values alone, and the call succeeds.
#[verifier::external_body]
fn write_parts(e: &AuditEntry) -> (r: Result<Vec<u8>, bincode::Error>)
    ensures
        r is Ok,
        r->Ok_0@ == bincode_audit(parts(e@)),
{
    bincode::serialize(
        &(
            e.prev_hash.as_deref(), e.audit_id.as_str(), e.timestamp_ns,
            e.identity_id.as_str(), e.overlay.as_str(), e.operation.as_str(),
            e.collection.as_str(), e.strand_count, e.fields_returned.as_slice(),
            e.query_pattern.as_str(), e.client_ip.as_str(), e.duration_ms,
        ),
    )
}

/// The hash that an entry should carry.
pub open spec fn hash_of(e: AuditView) -> Seq<char> {
    hex(blake3_digest(bincode_audit(parts(e))))
}

/// The hash that should stand before the `i`-th entry.
pub open spec fn hash_before(s: Seq<AuditView>, i: int) -> Option<Seq<char>> {
    if i <= 0 {
        None
    } else {
        Some(s[i - 1].entry_hash)
    }
}

/// Whether the `i`-th entry is linked to the one before and carries its own hash.
pub open spec fn sound_at(s: Seq<AuditView>, i: int) -> bool {
    s[i].prev_hash == hash_before(s, i) && s[i].entry_hash == hash_of(s[i])
}

/// Whether the whole chain is sound.
pub open spec fn intact(s: Seq<AuditView>) -> bool {
    forall|i: int| 0 <= i < s.len() ==> #[trigger] sound_at(s, i)
}

/// Whether an entry is what a write becomes behind `before`, with the number `id`.
pub open spec fn records(e: AuditView, w: AuditWrite, id: Seq<char>, before: Option<Seq<char>>) -> bool {
    &&& e.audit_id == "audit:"@ + id
    &&& e.timestamp_ns == w.timestamp_ns
    &&& e.identity_id == w.identity_id@
    &&& e.overlay == w.overlay@
    &&& e.operation == w.operation@
    &&& e.collection == w.collection@
    &&& e.strand_count == w.strand_count
    &&& e.fields_returned == texts(w.fields_returned@)
    &&& e.query_pattern == w.query_pattern@
    &&& e.client_ip == w.client_ip@
    &&& e.duration_ms == w.duration_ms
    &&& e.prev_hash == before
    &&& e.entry_hash == hash_of(e)
}

/// The log.
#[derive(Debug)]
pub struct AuditLog {
    entries: Vec<AuditEntry>,
}

impl AuditLog {
    /// The entries, the oldest first.
    pub closed spec fn view(&self) -> Seq<AuditView> {
        audit_views(self.entries@)
    }

    /// An empty log.
    pub fn new() -> (r: Self)
        ensures
            r.view() == Seq::<AuditView>::empty(),
    {
        let r = AuditLog { entries: Vec::new() };
        proof {
            assert(r.view() =~= Seq::<AuditView>::empty());
        }
        r
    }

    /// A log of entries that were kept elsewhere.
    pub fn from_entries(entries: Vec<AuditEntry>) -> (r: Self)
        ensures
            r.view() == audit_views(entries@),
    {
        AuditLog { entries }
    }

    /// Appends an entry numbered `id`, linked to the last one.
    pub fn append_with_id(&mut self, write: AuditWrite, id: &str) -> (r: Result<&AuditEntry, AuditError>)
        ensures
            match r {
                Ok(e) => {
                    &&& records(e@, write, id@, hash_before(old(self).view(), old(self).view().len() as int))
                    &&& final(self).view() == old(self).view().push(e@)
                },
                Err(_) => false,
            },
            intact(old(self).view()) ==> intact(final(self).view()),
    {
        let ghost before = self.view();
        let n: usize = self.entries.len();
        let prev_hash = if n == 0 {
            None
        } else {
            proof {
                assert(before[n - 1] == self.entries@[n - 1]@);
            }
            Some(self.entries[n - 1].entry_hash.clone())
        };
        let mut entry = AuditEntry {
            audit_id: join2("audit:", id),
            timestamp_ns: write.timestamp_ns,
            identity_id: write.identity_id,
            overlay: write.overlay,
            operation: write.operation,
            collection: write.collection,
            strand_count: write.strand_count,
            fields_returned: write.fields_returned,
            query_pattern: write.query_pattern,
            client_ip: write.client_ip,
            duration_ms: write.duration_ms,
            prev_hash,
            entry_hash: String::new(),
        };
        let hash = match compute_entry_hash(&entry) {
            Ok(h) => h,
            Err(e) => {
                return Err(e);
            },
        };
        let ghost unhashed = entry@;
        entry.entry_hash = hash;
        proof {
            assert(parts(entry@) == parts(unhashed));
        }
        let ghost last = entry@;
        self.entries.push(entry);
        proof {
            let after = self.view();
            assert(after =~= before.push(last));
            if intact(before) {
                assert forall|i: int| 0 <= i < after.len() implies #[trigger] sound_at(after, i) by {
                    if i < before.len() {
                        assert(sound_at(before, i));
                        assert(after[i] == before[i]);
                        if i > 0 {
                            assert(after[i - 1] == before[i - 1]);
                        }
                    }
                }
            }
        }
        Ok(&self.entries[n])
    }

    /// Appends an entry with a random number.
    pub fn append(&mut self, write: AuditWrite) -> (r: Result<&AuditEntry, AuditError>)
        ensures
            match r {
                Ok(e) => {
                    &&& exists|id: [u8; 16]| #[trigger]
                        is_random_id(id) && records(
                            e@,
                            write,
                            hex(id@),
                            hash_before(old(self).view(), old(self).view().len() as int),
                        )
                    &&& final(self).view() == old(self).view().push(e@)
                },
                Err(_) => false,
            },
            intact(old(self).view()) ==> intact(final(self).view()),
    {
        let id = random_id();
        let text = simple_text(&id);
        self.append_with_id(write, text.as_str())
    }

    /// All entries.
    pub fn entries(&self) -> (r: &[AuditEntry])
        ensures
            audit_views(r@) == self.view(),
    {
        self.entries.as_slice()
    }

    /// Checks the whole chain; the error names the first entry that is not sound.
    pub fn verify_integrity(&self) -> (r: Result<(), AuditError>)
        ensures
            match r {
                Ok(_) => intact(self.view()),
                Err(AuditError::IntegrityFailure(k)) => {
                    &&& k < self.view().len()
                    &&& !sound_at(self.view(), k as int)
                    &&& forall|i: int| 0 <= i < k ==> #[trigger] sound_at(self.view(), i)
                },
                Err(_) => false,
            },
    {
        let ghost s = self.view();
        let mut i: usize = 0;
        while i < self.entries.len()
            invariant
                0 <= i <= self.entries@.len(),
                s == audit_views(self.entries@),
                s == self.view(),
                forall|k: int| 0 <= k < i ==> #[trigger] sound_at(s, k),
            decreases self.entries@.len() - i,
        {
            let e = &self.entries[i];
            proof {
                assert(s[i as int] == e@);
                if i > 0 {
                    assert(s[i - 1] == self.entries@[i - 1]@);
                }
            }
            let linked = match &e.prev_hash {
                Some(h) => i > 0 && str_eq(h.as_str(), self.entries[i - 1].entry_hash.as_str()),
                None => i == 0,
            };
            proof {
                assert(linked == (s[i as int].prev_hash == hash_before(s, i as int)));
            }
            if !linked {
                return Err(AuditError::IntegrityFailure(i));
            }
            let expected = match compute_entry_hash(e) {
                Ok(h) => h,
                Err(e) => {
                    return Err(e);
                },
            };
            if !str_eq(expected.as_str(), e.entry_hash.as_str()) {
                return Err(AuditError::IntegrityFailure(i));
            }
            i += 1;
        }
        Ok(())
    }
}

fn compute_entry_hash(e: &AuditEntry) -> (r: Result<String, AuditError>)
    ensures
        r is Ok,
        r->Ok_0@ == hash_of(e@),
{
    match write_parts(e) {
        Ok(b) => Ok(blake3_hex(b.as_slice())),
        Err(e) => Err(AuditError::Serialize(e)),
    }
}

/// An entry of an intact log cannot be changed unnoticed: with its hash kept, and unless the
/// changed values have that very hash, the check fails at that entry.
pub proof fn law_tampering_is_detected(s: Seq<AuditView>, i: int, changed: AuditView)
    requires
        intact(s),
        0 <= i < s.len(),
        changed.entry_hash == s[i].entry_hash,
        hash_of(changed) != s[i].entry_hash,
    ensures
        !intact(s.update(i, changed)),
        !sound_at(s.update(i, changed), i),
        forall|k: int| 0 <= k < i ==> #[trigger] sound_at(s.update(i, changed), k),
{
    let t = s.update(i, changed);
    assert(t[i] == changed);
    assert(!sound_at(t, i));
    assert forall|k: int| 0 <= k < i implies #[trigger] sound_at(t, k) by {
        assert(sound_at(s, k));
        assert(t[k] == s[k]);
        if k > 0 {
            assert(t[k - 1] == s[k - 1]);
        }
    }
}

/// A changed hash breaks the link of the entry behind it.
pub proof fn law_rehashing_breaks_the_next_link(s: Seq<AuditView>, i: int, changed: AuditView)
    requires
        intact(s),
        0 <= i < s.len() - 1,
        changed.entry_hash != s[i].entry_hash,
    ensures
        !sound_at(s.update(i, changed), i + 1),
{
    let t = s.update(i, changed);
    assert(sound_at(s, i + 1));
    assert(t[i + 1] == s[i + 1]);
    assert(t[i] == changed);
}

/// An entry cannot be taken out of the middle of an intact log unnoticed, unless two entries
/// carry one hash.
pub proof fn law_removal_is_detected(s: Seq<AuditView>, i: int)
    requires
        intact(s),
        0 <= i < s.len() - 1,
        hash_before(s, i) != hash_before(s, i + 1),
    ensures
        !sound_at(s.remove(i), i),
{
    let t = s.remove(i);
    assert(sound_at(s, i + 1));
    assert(t[i] == s[i + 1]);
    if i > 0 {
        assert(t[i - 1] == s[i - 1]);
    }
}

} // verus!
