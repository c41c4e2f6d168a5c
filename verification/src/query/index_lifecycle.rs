//! A catalog of prepared indexes and the files that it is kept in: a manifest that names the
//! fields, and one file for each index, named by the digest of its field.
use super::index::{
    index_entries, indexes, number_less, numbers_of, stored_as, stores_hash_index,
    GlobalHashIndex, GlobalHashIndexError, GlobalRangeIndex,
};
use crate::digest::{blake3_digest, blake3_hex};
use crate::model::{strand_views, Strand};
use crate::support::num_text::hex;
use crate::support::sort::stably_sorted;
use crate::support::str_map::StrMap;
use crate::support::text::{join2, owned, texts};
use crate::wire_format::{
    bincode_hash_index, bincode_range_index, bincode_text_lists, read_text_lists, write_text_lists,
};
use vstd::prelude::*;
use vstd::utf8::encode_utf8;

verus! {

/// The file that names the indexed fields.
pub const MANIFEST_FILE: &'static str = "manifest.bin";

/// Exact and numeric indexes by field name.
#[derive(Debug)]
pub struct GlobalIndexCatalog {
    pub hash_indexes: StrMap<GlobalHashIndex>,
    pub range_indexes: StrMap<GlobalRangeIndex>,
}

/// Why a catalog could not be written or read.
#[derive(Debug)]
pub enum GlobalIndexCatalogError {
    /// A file is missing.
    Missing(String),
    /// The manifest cannot be written or read.
    Serialize(bincode::Error),
    /// An index cannot be written or read.
    Hash(GlobalHashIndexError),
}

/// The directory of a collection's indexes.
pub open spec fn index_dir_text(collection: Seq<char>) -> Seq<char> {
    collection + ".indexes"@
}

/// The directory of a collection's indexes.
pub fn index_dir(collection: &str) -> (r: String)
    ensures
        r@ == index_dir_text(collection@),
{
    join2(collection, ".indexes")
}

/// The part of a file name that stands for a field: the digest of its name.
pub open spec fn digest_key(field: Seq<char>) -> Seq<char> {
    hex(blake3_digest(encode_utf8(field)))
}

/// The file of a field's exact index.
pub open spec fn hash_file(field: Seq<char>) -> Seq<char> {
    "hash-"@ + digest_key(field) + ".bin"@
}

/// The file of a field's numeric index.
pub open spec fn range_file(field: Seq<char>) -> Seq<char> {
    "range-"@ + digest_key(field) + ".bin"@
}

/// The file of a field's exact index.
pub fn hash_file_name(field: &str) -> (r: String)
    ensures
        r@ == hash_file(field@),
{
    let key = blake3_hex(field.as_bytes());
    let mut s = join2("hash-", key.as_str());
    s.append(".bin");
    s
}

/// The file of a field's numeric index.
pub fn range_file_name(field: &str) -> (r: String)
    ensures
        r@ == range_file(field@),
{
    let key = blake3_hex(field.as_bytes());
    let mut s = join2("range-", key.as_str());
    s.append(".bin");
    s
}

/// Whether `key` is among the first `n` names.
pub open spec fn named(names: Seq<&str>, key: Seq<char>, n: int) -> bool {
    exists|i: int| 0 <= i < n && (#[trigger] names[i])@ == key
}

/// The bytes of the file with a name.
pub open spec fn stored_bytes(files: Map<Seq<char>, Vec<u8>>, name: Seq<char>) -> Seq<u8> {
    files[name]@
}

/// Whether the manifest names the fields `h` and `g`.
pub open spec fn manifest_says(files: Map<Seq<char>, Vec<u8>>, h: Seq<Seq<char>>, g: Seq<Seq<char>>) -> bool {
    files.dom().contains("manifest.bin"@) && bincode_text_lists(h, g).is_prefix_of(
        stored_bytes(files, "manifest.bin"@),
    )
}

/// Whether the file of a field's exact index holds `x`.
pub open spec fn holds_hash_index(files: Map<Seq<char>, Vec<u8>>, field: Seq<char>, x: GlobalHashIndex) -> bool {
    files.dom().contains(hash_file(field)) && exists|q: Seq<(Seq<u8>, Seq<[u8; 8]>)>| #[trigger]
        stored_as(stored_bytes(files, hash_file(field)), x.field@, x.map@, q)
}

/// Whether the file of a field's numeric index holds `x`.
pub open spec fn holds_range_index(files: Map<Seq<char>, Vec<u8>>, field: Seq<char>, x: GlobalRangeIndex) -> bool {
    files.dom().contains(range_file(field)) && bincode_range_index(x.field@, x.entries@).is_prefix_of(
        stored_bytes(files, range_file(field)),
    )
}

/// Whether a catalog is what the files hold for the fields `h` and `g`.
pub open spec fn holds_catalog(
    files: Map<Seq<char>, Vec<u8>>,
    c: GlobalIndexCatalog,
    h: Seq<Seq<char>>,
    g: Seq<Seq<char>>,
) -> bool {
    &&& manifest_says(files, h, g)
    &&& forall|f: Seq<char>| #[trigger] c.hash_indexes@.dom().contains(f) <==> h.contains(f)
    &&& forall|f: Seq<char>| #[trigger] c.range_indexes@.dom().contains(f) <==> g.contains(f)
    &&& forall|f: Seq<char>| #[trigger]
        c.hash_indexes@.dom().contains(f) ==> holds_hash_index(files, f, c.hash_indexes@[f])
    &&& forall|f: Seq<char>| #[trigger]
        c.range_indexes@.dom().contains(f) ==> holds_range_index(files, f, c.range_indexes@[f])
}

/// Whether two catalogs hold the same indexes for the same fields.
pub open spec fn same_catalog(a: GlobalIndexCatalog, b: GlobalIndexCatalog) -> bool {
    &&& a.hash_indexes@.dom() == b.hash_indexes@.dom()
    &&& a.range_indexes@.dom() == b.range_indexes@.dom()
    &&& forall|f: Seq<char>| #[trigger]
        a.hash_indexes@.dom().contains(f) ==> a.hash_indexes@[f].field@ == b.hash_indexes@[f].field@
            && a.hash_indexes@[f].map@ == b.hash_indexes@[f].map@
    &&& forall|f: Seq<char>| #[trigger]
        a.range_indexes@.dom().contains(f) ==> a.range_indexes@[f].field@ == b.range_indexes@[f].field@
            && a.range_indexes@[f].entries@ == b.range_indexes@[f].entries@
}

/// Whether no exact index can be read for a field.
pub open spec fn no_hash_index(files: Map<Seq<char>, Vec<u8>>, field: Seq<char>) -> bool {
    forall|f: Seq<char>, m: Map<Seq<u8>, Seq<[u8; 8]>>, q: Seq<(Seq<u8>, Seq<[u8; 8]>)>|
        !#[trigger] stored_as(stored_bytes(files, hash_file(field)), f, m, q)
}

/// Whether no numeric index can be read for a field.
pub open spec fn no_range_index(files: Map<Seq<char>, Vec<u8>>, field: Seq<char>) -> bool {
    forall|f: Seq<char>, q: Seq<(u64, [u8; 8])>|
        !(#[trigger] bincode_range_index(f, q)).is_prefix_of(stored_bytes(files, range_file(field)))
}

/// How a catalog is read: it is what the files hold, and any catalog that they hold is the one
/// that comes back; else something of it is missing or cannot be read.
pub open spec fn loads_catalog(
    r: Result<GlobalIndexCatalog, GlobalIndexCatalogError>,
    files: Map<Seq<char>, Vec<u8>>,
) -> bool {
    &&& read_is_true(r, files)
    &&& forall|c: GlobalIndexCatalog, h: Seq<Seq<char>>, g: Seq<Seq<char>>| #[trigger]
        holds_catalog(files, c, h, g) ==> (r matches Ok(x) && same_catalog(x, c))
}

/// Whether what came of reading a catalog is true of the files: they hold the catalog, or the
/// file is missing or cannot be read.
pub open spec fn read_is_true(
    r: Result<GlobalIndexCatalog, GlobalIndexCatalogError>,
    files: Map<Seq<char>, Vec<u8>>,
) -> bool {
    match r {
        Ok(c) => exists|h: Seq<Seq<char>>, g: Seq<Seq<char>>| #[trigger] holds_catalog(files, c, h, g),
        Err(GlobalIndexCatalogError::Missing(name)) => {
            &&& !files.dom().contains(name@)
            &&& name@ == "manifest.bin"@ || exists|h: Seq<Seq<char>>, g: Seq<Seq<char>>| #[trigger]
                manifest_says(files, h, g) && names_file(h, g, name@)
        },
        Err(GlobalIndexCatalogError::Serialize(_)) => {
            &&& files.dom().contains("manifest.bin"@)
            &&& forall|h: Seq<Seq<char>>, g: Seq<Seq<char>>| !#[trigger] manifest_says(files, h, g)
        },
        Err(GlobalIndexCatalogError::Hash(_)) => exists|h: Seq<Seq<char>>, g: Seq<Seq<char>>| #[trigger]
            manifest_says(files, h, g) && unreadable(files, h, g),
    }
}

/// Whether `name` is the file of an index of these fields.
pub open spec fn names_file(h: Seq<Seq<char>>, g: Seq<Seq<char>>, name: Seq<char>) -> bool {
    (exists|i: int| 0 <= i < h.len() && name == hash_file(#[trigger] h[i])) || (exists|i: int|
        0 <= i < g.len() && name == range_file(#[trigger] g[i]))
}

/// Whether the file of an index of these fields is there but cannot be read.
pub open spec fn unreadable(files: Map<Seq<char>, Vec<u8>>, h: Seq<Seq<char>>, g: Seq<Seq<char>>) -> bool {
    (exists|i: int|
        0 <= i < h.len() && files.dom().contains(hash_file(#[trigger] h[i])) && no_hash_index(files, h[i])) || (
    exists|i: int|
        0 <= i < g.len() && files.dom().contains(range_file(#[trigger] g[i])) && no_range_index(files, g[i]))
}

/// Whether a list of files is what a catalog is written as: the manifest, then the exact and
/// the numeric indexes in the order of the manifest.
pub open spec fn writes_catalog(out: Seq<(String, Vec<u8>)>, c: GlobalIndexCatalog) -> bool {
    let h = c.hash_indexes.keys();
    let g = c.range_indexes.keys();
    &&& out.len() == 1 + h.len() + g.len()
    &&& out[0].0@ == "manifest.bin"@
    &&& out[0].1@ == bincode_text_lists(h, g)
    &&& forall|i: int|
        0 <= i < h.len() ==> #[trigger] out[1 + i].0@ == hash_file(h[i]) && stores_hash_index(
            out[1 + i].1@,
            c.hash_indexes@[h[i]],
        )
    &&& forall|i: int|
        0 <= i < g.len() ==> #[trigger] out[1 + h.len() + i].0@ == range_file(g[i]) && out[1 + h.len() + i].1@
            == bincode_range_index(c.range_indexes@[g[i]].field@, c.range_indexes@[g[i]].entries@)
}

/// Whether the `k`-th exact index stands in its place in a list of files.
spec fn hash_written(out: Seq<(String, Vec<u8>)>, c: GlobalIndexCatalog, k: int) -> bool {
    let h = c.hash_indexes.keys();
    out[1 + k].0@ == hash_file(h[k]) && stores_hash_index(out[1 + k].1@, c.hash_indexes@[h[k]])
}

/// Whether the `k`-th numeric index stands in its place in a list of files.
spec fn range_written(out: Seq<(String, Vec<u8>)>, c: GlobalIndexCatalog, k: int) -> bool {
    let at = 1 + c.hash_indexes.keys().len() + k;
    let g = c.range_indexes.keys();
    out[at].0@ == range_file(g[k]) && out[at].1@ == bincode_range_index(
        c.range_indexes@[g[k]].field@,
        c.range_indexes@[g[k]].entries@,
    )
}

impl GlobalIndexCatalog {
    /// A catalog without indexes.
    pub fn new() -> (r: Self)
        ensures
            r.hash_indexes@ == Map::<Seq<char>, GlobalHashIndex>::empty(),
            r.range_indexes@ == Map::<Seq<char>, GlobalRangeIndex>::empty(),
    {
        GlobalIndexCatalog { hash_indexes: StrMap::new(), range_indexes: StrMap::new() }
    }

    /// Builds the indexes of the named fields.
    pub fn build(strands: &[Strand], hash_fields: &[&str], range_fields: &[&str]) -> (r: Self)
        ensures
            forall|f: Seq<char>| #[trigger]
                r.hash_indexes@.dom().contains(f) <==> named(hash_fields@, f, hash_fields@.len() as int),
            forall|f: Seq<char>| #[trigger]
                r.range_indexes@.dom().contains(f) <==> named(range_fields@, f, range_fields@.len() as int),
            forall|f: Seq<char>| #[trigger]
                r.hash_indexes@.dom().contains(f) ==> r.hash_indexes@[f].field@ == f && indexes(
                    r.hash_indexes@[f].map@,
                    index_entries(strand_views(strands@), f, strands@.len()),
                ),
            forall|f: Seq<char>| #[trigger]
                r.range_indexes@.dom().contains(f) ==> r.range_indexes@[f].field@ == f && stably_sorted(
                    numbers_of(strand_views(strands@), f, strands@.len()),
                    r.range_indexes@[f].entries@,
                    |a: (u64, [u8; 8]), b: (u64, [u8; 8])| number_less(a, b),
                ),
    {
        let mut hash_indexes: StrMap<GlobalHashIndex> = StrMap::new();
        let mut i: usize = 0;
        while i < hash_fields.len()
            invariant
                0 <= i <= hash_fields@.len(),
                forall|f: Seq<char>| #[trigger]
                    hash_indexes@.dom().contains(f) <==> named(hash_fields@, f, i as int),
                forall|f: Seq<char>| #[trigger]
                    hash_indexes@.dom().contains(f) ==> hash_indexes@[f].field@ == f && indexes(
                        hash_indexes@[f].map@,
                        index_entries(strand_views(strands@), f, strands@.len()),
                    ),
            decreases hash_fields@.len() - i,
        {
            let field = hash_fields[i];
            let ghost before = hash_indexes@;
            let _ = hash_indexes.insert(owned(field), GlobalHashIndex::build(field, strands));
            proof {
                assert(hash_fields@[i as int]@ == field@);
                assert forall|f: Seq<char>| #[trigger] hash_indexes@.dom().contains(f) <==> named(
                    hash_fields@,
                    f,
                    i + 1,
                ) by {
                    assert(before.dom().contains(f) <==> named(hash_fields@, f, i as int));
                }
                assert forall|f: Seq<char>| #[trigger] hash_indexes@.dom().contains(f) implies hash_indexes@[f].field@
                    == f && indexes(
                    hash_indexes@[f].map@,
                    index_entries(strand_views(strands@), f, strands@.len()),
                ) by {
                    if f != field@ {
                        assert(before.dom().contains(f));
                    }
                }
            }
            i += 1;
        }
        let mut range_indexes: StrMap<GlobalRangeIndex> = StrMap::new();
        let ghost lt = |a: (u64, [u8; 8]), b: (u64, [u8; 8])| number_less(a, b);
        let mut j: usize = 0;
        while j < range_fields.len()
            invariant
                0 <= j <= range_fields@.len(),
                lt == (|a: (u64, [u8; 8]), b: (u64, [u8; 8])| number_less(a, b)),
                forall|f: Seq<char>| #[trigger]
                    range_indexes@.dom().contains(f) <==> named(range_fields@, f, j as int),
                forall|f: Seq<char>| #[trigger]
                    range_indexes@.dom().contains(f) ==> range_indexes@[f].field@ == f && stably_sorted(
                        numbers_of(strand_views(strands@), f, strands@.len()),
                        range_indexes@[f].entries@,
                        lt,
                    ),
            decreases range_fields@.len() - j,
        {
            let field = range_fields[j];
            let ghost before = range_indexes@;
            let _ = range_indexes.insert(owned(field), GlobalRangeIndex::build(field, strands));
            proof {
                assert(range_fields@[j as int]@ == field@);
                assert forall|f: Seq<char>| #[trigger] range_indexes@.dom().contains(f) <==> named(
                    range_fields@,
                    f,
                    j + 1,
                ) by {
                    assert(before.dom().contains(f) <==> named(range_fields@, f, j as int));
                }
                assert forall|f: Seq<char>| #[trigger]
                    range_indexes@.dom().contains(f) implies range_indexes@[f].field@ == f && stably_sorted(
                    numbers_of(strand_views(strands@), f, strands@.len()),
                    range_indexes@[f].entries@,
                    lt,
                ) by {
                    if f != field@ {
                        assert(before.dom().contains(f));
                    }
                }
            }
            j += 1;
        }
        GlobalIndexCatalog { hash_indexes, range_indexes }
    }

    /// The files of the catalog, by name, the manifest first.
    pub fn to_files(&self) -> (r: Result<Vec<(String, Vec<u8>)>, GlobalIndexCatalogError>)
        ensures
            r matches Ok(out) && writes_catalog(out@, *self),
    {
        let h_names = key_list(&self.hash_indexes);
        let g_names = key_list(&self.range_indexes);
        let lists = (h_names, g_names);
        let ghost h = self.hash_indexes.keys();
        let ghost g = self.range_indexes.keys();
        let manifest = match write_text_lists(&lists) {
            Ok(b) => b,
            Err(e) => {
                return Err(GlobalIndexCatalogError::Serialize(e));
            },
        };
        let mut out: Vec<(String, Vec<u8>)> = Vec::new();
        out.push((owned(MANIFEST_FILE), manifest));
        let hn = self.hash_indexes.len();
        let gn = self.range_indexes.len();
        let mut i: usize = 0;
        while i < hn
            invariant
                0 <= i <= hn,
                h == self.hash_indexes.keys(),
                g == self.range_indexes.keys(),
                hn == h.len(),
                out@.len() == 1 + i,
                out@[0].0@ == "manifest.bin"@,
                out@[0].1@ == bincode_text_lists(h, g),
                forall|k: int| 0 <= k < i ==> #[trigger] hash_written(out@, *self, k),
            decreases hn - i,
        {
            let name = hash_file_name(self.hash_indexes.key(i).as_str());
            let bytes = match self.hash_indexes.value(i).to_bytes() {
                Ok(b) => b,
                Err(e) => {
                    return Err(GlobalIndexCatalogError::Hash(e));
                },
            };
            let ghost before = out@;
            out.push((name, bytes));
            proof {
                assert forall|k: int| 0 <= k < i + 1 implies #[trigger] hash_written(out@, *self, k) by {
                    if k < i {
                        assert(hash_written(before, *self, k));
                        assert(out@[1 + k] == before[1 + k]);
                    }
                }
            }
            i += 1;
        }
        let mut j: usize = 0;
        while j < gn
            invariant
                0 <= j <= gn,
                h == self.hash_indexes.keys(),
                g == self.range_indexes.keys(),
                gn == g.len(),
                out@.len() == 1 + h.len() + j,
                out@[0].0@ == "manifest.bin"@,
                out@[0].1@ == bincode_text_lists(h, g),
                forall|k: int| 0 <= k < h.len() ==> #[trigger] hash_written(out@, *self, k),
                forall|k: int| 0 <= k < j ==> #[trigger] range_written(out@, *self, k),
            decreases gn - j,
        {
            let name = range_file_name(self.range_indexes.key(j).as_str());
            let bytes = match self.range_indexes.value(j).to_bytes() {
                Ok(b) => b,
                Err(e) => {
                    return Err(GlobalIndexCatalogError::Hash(e));
                },
            };
            let ghost before = out@;
            out.push((name, bytes));
            proof {
                assert forall|k: int| 0 <= k < h.len() implies #[trigger] hash_written(out@, *self, k) by {
                    assert(hash_written(before, *self, k));
                    assert(out@[1 + k] == before[1 + k]);
                }
                assert forall|k: int| 0 <= k < j + 1 implies #[trigger] range_written(out@, *self, k) by {
                    if k < j {
                        assert(range_written(before, *self, k));
                        assert(out@[1 + h.len() + k] == before[1 + h.len() + k]);
                    }
                }
            }
            j += 1;
        }
        proof {
            assert forall|k: int| 0 <= k < h.len() implies #[trigger] out@[1 + k].0@ == hash_file(h[k])
                && stores_hash_index(out@[1 + k].1@, self.hash_indexes@[h[k]]) by {
                assert(hash_written(out@, *self, k));
            }
            assert forall|k: int| 0 <= k < g.len() implies #[trigger] out@[1 + h.len() + k].0@ == range_file(g[k])
                && out@[1 + h.len() + k].1@ == bincode_range_index(
                self.range_indexes@[g[k]].field@,
                self.range_indexes@[g[k]].entries@,
            ) by {
                assert(range_written(out@, *self, k));
            }
            assert(writes_catalog(out@, *self));
        }
        Ok(out)
    }

    /// The fields that a manifest names: exact, then numeric.
    pub fn manifest_fields(manifest: &[u8]) -> (r: Result<(Vec<String>, Vec<String>), GlobalIndexCatalogError>)
        ensures
            r matches Ok(p) ==> bincode_text_lists(texts(p.0@), texts(p.1@)).is_prefix_of(manifest@),
            r matches Err(e) ==> e is Serialize,
            forall|x: Seq<Seq<char>>, y: Seq<Seq<char>>|
                (#[trigger] bincode_text_lists(x, y)).is_prefix_of(manifest@) ==> (r matches Ok(p) && texts(p.0@)
                    == x && texts(p.1@) == y),
    {
        match read_text_lists(manifest) {
            Ok(p) => Ok(p),
            Err(e) => Err(GlobalIndexCatalogError::Serialize(e)),
        }
    }

    /// Reads a catalog from its files by name.
    pub fn from_files(files: &StrMap<Vec<u8>>) -> (r: Result<Self, GlobalIndexCatalogError>)
        ensures
            loads_catalog(r, files@),
    {
        let manifest = match files.get(MANIFEST_FILE) {
            Some(b) => b,
            None => {
                let e = GlobalIndexCatalogError::Missing(owned(MANIFEST_FILE));
                proof {
                    lemma_nothing_held(e, files@);
                }
                return Err(e);
            },
        };
        let (h_names, g_names) = match Self::manifest_fields(manifest.as_slice()) {
            Ok(p) => p,
            Err(e) => {
                proof {
                    assert forall|h: Seq<Seq<char>>, g: Seq<Seq<char>>| !#[trigger] manifest_says(files@, h, g) by {
                        if manifest_says(files@, h, g) {
                            assert(bincode_text_lists(h, g).is_prefix_of(manifest@));
                        }
                    }
                    lemma_nothing_held(e, files@);
                }
                return Err(e);
            },
        };
        let ghost h = texts(h_names@);
        let ghost g = texts(g_names@);
        proof {
            assert(manifest_says(files@, h, g));
            assert forall|x: Seq<Seq<char>>, y: Seq<Seq<char>>| #[trigger]
                manifest_says(files@, x, y) implies x == h && y == g by {
                assert(bincode_text_lists(x, y).is_prefix_of(manifest@));
            }
        }
        let hash_indexes = match read_hash_indexes(files, &h_names) {
            Ok(m) => m,
            Err(e) => {
                proof {
                    lemma_hash_failure(e, files@, h, g);
                }
                return Err(e);
            },
        };
        let range_indexes = match read_range_indexes(files, &g_names) {
            Ok(m) => m,
            Err(e) => {
                proof {
                    lemma_range_failure(e, files@, h, g);
                }
                return Err(e);
            },
        };
        let c = GlobalIndexCatalog { hash_indexes, range_indexes };
        let r = Ok(c);
        proof {
            assert(r->Ok_0 == c);
            assert(holds_catalog(files@, r->Ok_0, h, g));
            assert forall|x: GlobalIndexCatalog, a: Seq<Seq<char>>, b: Seq<Seq<char>>| #[trigger]
                holds_catalog(files@, x, a, b) implies same_catalog(c, x) by {
                lemma_same_catalog(files@, c, x, h, g);
            }
            assert(loads_catalog(r, files@));
        }
        r
    }
}

/// What a failure to read the exact index of a field means.
spec fn hash_failure_at(e: GlobalIndexCatalogError, files: Map<Seq<char>, Vec<u8>>, f: Seq<char>) -> bool {
    match e {
        GlobalIndexCatalogError::Missing(name) => name@ == hash_file(f) && !files.dom().contains(name@),
        GlobalIndexCatalogError::Hash(_) => files.dom().contains(hash_file(f)) && no_hash_index(files, f),
        GlobalIndexCatalogError::Serialize(_) => false,
    }
}

/// What a failure to read the exact indexes of the fields `h` means.
spec fn hash_failure(e: GlobalIndexCatalogError, files: Map<Seq<char>, Vec<u8>>, h: Seq<Seq<char>>) -> bool {
    exists|i: int| 0 <= i < h.len() && hash_failure_at(e, files, #[trigger] h[i])
}

/// What a failure to read the numeric index of a field means.
spec fn range_failure_at(e: GlobalIndexCatalogError, files: Map<Seq<char>, Vec<u8>>, f: Seq<char>) -> bool {
    match e {
        GlobalIndexCatalogError::Missing(name) => name@ == range_file(f) && !files.dom().contains(name@),
        GlobalIndexCatalogError::Hash(_) => files.dom().contains(range_file(f)) && no_range_index(files, f),
        GlobalIndexCatalogError::Serialize(_) => false,
    }
}

/// What a failure to read the numeric indexes of the fields `g` means.
spec fn range_failure(e: GlobalIndexCatalogError, files: Map<Seq<char>, Vec<u8>>, g: Seq<Seq<char>>) -> bool {
    exists|i: int| 0 <= i < g.len() && range_failure_at(e, files, #[trigger] g[i])
}

/// Whether the file of a field's exact index holds no other index than `x`.
spec fn only_hash_index(files: Map<Seq<char>, Vec<u8>>, field: Seq<char>, x: GlobalHashIndex) -> bool {
    forall|f: Seq<char>, m: Map<Seq<u8>, Seq<[u8; 8]>>, q: Seq<(Seq<u8>, Seq<[u8; 8]>)>| #[trigger]
        stored_as(stored_bytes(files, hash_file(field)), f, m, q) ==> x.field@ == f && x.map@ == m
}

/// Whether the file of a field's numeric index holds no other index than `x`.
spec fn only_range_index(files: Map<Seq<char>, Vec<u8>>, field: Seq<char>, x: GlobalRangeIndex) -> bool {
    forall|f: Seq<char>, q: Seq<(u64, [u8; 8])>|
        (#[trigger] bincode_range_index(f, q)).is_prefix_of(stored_bytes(files, range_file(field))) ==> x.field@ == f
            && x.entries@ == q
}

proof fn lemma_nothing_held(e: GlobalIndexCatalogError, files: Map<Seq<char>, Vec<u8>>)
    requires
        read_is_true(Err(e), files),
        !files.dom().contains("manifest.bin"@) || e is Serialize,
    ensures
        loads_catalog(Err(e), files),
{
    assert forall|c: GlobalIndexCatalog, h: Seq<Seq<char>>, g: Seq<Seq<char>>|
        !#[trigger] holds_catalog(files, c, h, g) by {
        if holds_catalog(files, c, h, g) {
            assert(manifest_says(files, h, g));
        }
    }
}

proof fn lemma_same_catalog(
    files: Map<Seq<char>, Vec<u8>>,
    c: GlobalIndexCatalog,
    x: GlobalIndexCatalog,
    h: Seq<Seq<char>>,
    g: Seq<Seq<char>>,
)
    requires
        holds_catalog(files, c, h, g),
        holds_catalog(files, x, h, g),
        forall|f: Seq<char>| #[trigger]
            c.hash_indexes@.dom().contains(f) ==> only_hash_index(files, f, c.hash_indexes@[f]),
        forall|f: Seq<char>| #[trigger]
            c.range_indexes@.dom().contains(f) ==> only_range_index(files, f, c.range_indexes@[f]),
    ensures
        same_catalog(c, x),
{
    assert forall|f: Seq<char>| c.hash_indexes@.dom().contains(f) <==> #[trigger] x.hash_indexes@.dom().contains(f) by {
        assert(h.contains(f) <==> c.hash_indexes@.dom().contains(f));
    }
    assert(c.hash_indexes@.dom() =~= x.hash_indexes@.dom());
    assert forall|f: Seq<char>|
        c.range_indexes@.dom().contains(f) <==> #[trigger] x.range_indexes@.dom().contains(f) by {
        assert(g.contains(f) <==> c.range_indexes@.dom().contains(f));
    }
    assert(c.range_indexes@.dom() =~= x.range_indexes@.dom());
    assert forall|f: Seq<char>| #[trigger]
        c.hash_indexes@.dom().contains(f) implies c.hash_indexes@[f].field@ == x.hash_indexes@[f].field@
        && c.hash_indexes@[f].map@ == x.hash_indexes@[f].map@ by {
        assert(x.hash_indexes@.dom().contains(f));
        assert(only_hash_index(files, f, c.hash_indexes@[f]));
    }
    assert forall|f: Seq<char>| #[trigger]
        c.range_indexes@.dom().contains(f) implies c.range_indexes@[f].field@ == x.range_indexes@[f].field@
        && c.range_indexes@[f].entries@ == x.range_indexes@[f].entries@ by {
        assert(x.range_indexes@.dom().contains(f));
        assert(only_range_index(files, f, c.range_indexes@[f]));
    }
}

proof fn lemma_hash_failure(
    e: GlobalIndexCatalogError,
    files: Map<Seq<char>, Vec<u8>>,
    h: Seq<Seq<char>>,
    g: Seq<Seq<char>>,
)
    requires
        manifest_says(files, h, g),
        forall|x: Seq<Seq<char>>, y: Seq<Seq<char>>| #[trigger] manifest_says(files, x, y) ==> x == h && y == g,
        hash_failure(e, files, h),
    ensures
        loads_catalog(Err(e), files),
{
    let i = choose|i: int| 0 <= i < h.len() && hash_failure_at(e, files, #[trigger] h[i]);
    assert forall|c: GlobalIndexCatalog, a: Seq<Seq<char>>, b: Seq<Seq<char>>|
        !#[trigger] holds_catalog(files, c, a, b) by {
        if holds_catalog(files, c, a, b) {
            assert(c.hash_indexes@.dom().contains(h[i]));
            assert(holds_hash_index(files, h[i], c.hash_indexes@[h[i]]));
        }
    }
    match e {
        GlobalIndexCatalogError::Missing(name) => {
            assert(names_file(h, g, name@));
        },
        GlobalIndexCatalogError::Hash(_) => {
            assert(unreadable(files, h, g));
        },
        GlobalIndexCatalogError::Serialize(_) => {},
    }
}

proof fn lemma_range_failure(
    e: GlobalIndexCatalogError,
    files: Map<Seq<char>, Vec<u8>>,
    h: Seq<Seq<char>>,
    g: Seq<Seq<char>>,
)
    requires
        manifest_says(files, h, g),
        forall|x: Seq<Seq<char>>, y: Seq<Seq<char>>| #[trigger] manifest_says(files, x, y) ==> x == h && y == g,
        range_failure(e, files, g),
    ensures
        loads_catalog(Err(e), files),
{
    let i = choose|i: int| 0 <= i < g.len() && range_failure_at(e, files, #[trigger] g[i]);
    assert forall|c: GlobalIndexCatalog, a: Seq<Seq<char>>, b: Seq<Seq<char>>|
        !#[trigger] holds_catalog(files, c, a, b) by {
        if holds_catalog(files, c, a, b) {
            assert(c.range_indexes@.dom().contains(g[i]));
            assert(holds_range_index(files, g[i], c.range_indexes@[g[i]]));
        }
    }
    match e {
        GlobalIndexCatalogError::Missing(name) => {
            assert(names_file(h, g, name@));
        },
        GlobalIndexCatalogError::Hash(_) => {
            assert(unreadable(files, h, g));
        },
        GlobalIndexCatalogError::Serialize(_) => {},
    }
}

/// The names of a map's entries, in order.
fn key_list<V>(m: &StrMap<V>) -> (r: Vec<String>)
    ensures
        texts(r@) == m.keys(),
{
    let n = m.len();
    let mut out: Vec<String> = Vec::new();
    let mut i: usize = 0;
    while i < n
        invariant
            0 <= i <= n,
            n == m.keys().len(),
            out@.len() == i,
            forall|j: int| 0 <= j < i ==> (#[trigger] out@[j])@ == m.keys()[j],
        decreases n - i,
    {
        out.push(m.key(i).clone());
        i += 1;
    }
    proof {
        assert(texts(out@) =~= m.keys());
    }
    out
}

fn read_hash_indexes(files: &StrMap<Vec<u8>>, fields: &Vec<String>) -> (r: Result<
    StrMap<GlobalHashIndex>,
    GlobalIndexCatalogError,
>)
    ensures
        match r {
            Ok(m) => {
                &&& forall|f: Seq<char>| #[trigger] m@.dom().contains(f) <==> texts(fields@).contains(f)
                &&& forall|f: Seq<char>| #[trigger]
                    m@.dom().contains(f) ==> holds_hash_index(files@, f, m@[f]) && only_hash_index(files@, f, m@[f])
            },
            Err(e) => hash_failure(e, files@, texts(fields@)),
        },
{
    let ghost h = texts(fields@);
    let mut m: StrMap<GlobalHashIndex> = StrMap::new();
    let mut i: usize = 0;
    proof {
        assert(h.take(0) =~= Seq::<Seq<char>>::empty());
    }
    while i < fields.len()
        invariant
            0 <= i <= fields@.len(),
            h == texts(fields@),
            forall|f: Seq<char>| #[trigger] m@.dom().contains(f) <==> h.take(i as int).contains(f),
            forall|f: Seq<char>| #[trigger]
                m@.dom().contains(f) ==> holds_hash_index(files@, f, m@[f]) && only_hash_index(files@, f, m@[f]),
        decreases fields@.len() - i,
    {
        let field = &fields[i];
        proof {
            assert(h[i as int] == field@);
        }
        let name = hash_file_name(field.as_str());
        let bytes = match files.get(name.as_str()) {
            Some(b) => b,
            None => {
                let e = GlobalIndexCatalogError::Missing(name);
                proof {
                    assert(e->Missing_0@ == hash_file(h[i as int]));
                    assert(hash_failure_at(e, files@, h[i as int]));
                    assert(hash_failure(e, files@, h));
                }
                return Err(e);
            },
        };
        let idx = match GlobalHashIndex::from_bytes(bytes.as_slice()) {
            Ok(x) => x,
            Err(e) => {
                let e = GlobalIndexCatalogError::Hash(e);
                proof {
                    assert(files@.dom().contains(hash_file(h[i as int])) && no_hash_index(files@, h[i as int]));
                    assert(hash_failure_at(e, files@, h[i as int]));
                    assert(hash_failure(e, files@, h));
                }
                return Err(e);
            },
        };
        let ghost before = m@;
        let ghost x = idx;
        let _ = m.insert(field.clone(), idx);
        proof {
            let b = stored_bytes(files@, hash_file(field@));
            let q = choose|q: Seq<(Seq<u8>, Seq<[u8; 8]>)>| stored_as(b, x.field@, x.map@, q);
            assert(stored_as(b, x.field@, x.map@, q));
            assert(holds_hash_index(files@, field@, x));
            lemma_take_contains(h, i as int);
            assert(only_hash_index(files@, field@, x));
            assert forall|f: Seq<char>| #[trigger] m@.dom().contains(f) implies holds_hash_index(
                files@,
                f,
                m@[f],
            ) && only_hash_index(files@, f, m@[f]) by {
                if f != field@ {
                    assert(before.dom().contains(f));
                }
            }
        }
        i += 1;
    }
    proof {
        assert(h.take(fields@.len() as int) =~= h);
    }
    Ok(m)
}

fn read_range_indexes(files: &StrMap<Vec<u8>>, fields: &Vec<String>) -> (r: Result<
    StrMap<GlobalRangeIndex>,
    GlobalIndexCatalogError,
>)
    ensures
        match r {
            Ok(m) => {
                &&& forall|f: Seq<char>| #[trigger] m@.dom().contains(f) <==> texts(fields@).contains(f)
                &&& forall|f: Seq<char>| #[trigger]
                    m@.dom().contains(f) ==> holds_range_index(files@, f, m@[f]) && only_range_index(files@, f, m@[f])
            },
            Err(e) => range_failure(e, files@, texts(fields@)),
        },
{
    let ghost g = texts(fields@);
    let mut m: StrMap<GlobalRangeIndex> = StrMap::new();
    let mut i: usize = 0;
    proof {
        assert(g.take(0) =~= Seq::<Seq<char>>::empty());
    }
    while i < fields.len()
        invariant
            0 <= i <= fields@.len(),
            g == texts(fields@),
            forall|f: Seq<char>| #[trigger] m@.dom().contains(f) <==> g.take(i as int).contains(f),
            forall|f: Seq<char>| #[trigger]
                m@.dom().contains(f) ==> holds_range_index(files@, f, m@[f]) && only_range_index(files@, f, m@[f]),
        decreases fields@.len() - i,
    {
        let field = &fields[i];
        proof {
            assert(g[i as int] == field@);
        }
        let name = range_file_name(field.as_str());
        let bytes = match files.get(name.as_str()) {
            Some(b) => b,
            None => {
                let e = GlobalIndexCatalogError::Missing(name);
                proof {
                    assert(e->Missing_0@ == range_file(g[i as int]));
                    assert(range_failure_at(e, files@, g[i as int]));
                    assert(range_failure(e, files@, g));
                }
                return Err(e);
            },
        };
        let idx = match GlobalRangeIndex::from_bytes(bytes.as_slice()) {
            Ok(x) => x,
            Err(e) => {
                let e = GlobalIndexCatalogError::Hash(e);
                proof {
                    assert(files@.dom().contains(range_file(g[i as int])) && no_range_index(files@, g[i as int]));
                    assert(range_failure_at(e, files@, g[i as int]));
                    assert(range_failure(e, files@, g));
                }
                return Err(e);
            },
        };
        let ghost before = m@;
        let ghost x = idx;
        let _ = m.insert(field.clone(), idx);
        proof {
            assert(holds_range_index(files@, field@, x));
            lemma_take_contains(g, i as int);
            assert(only_range_index(files@, field@, x));
            assert forall|f: Seq<char>| #[trigger] m@.dom().contains(f) implies holds_range_index(
                files@,
                f,
                m@[f],
            ) && only_range_index(files@, f, m@[f]) by {
                if f != field@ {
                    assert(before.dom().contains(f));
                }
            }
        }
        i += 1;
    }
    proof {
        assert(g.take(fields@.len() as int) =~= g);
    }
    Ok(m)
}

proof fn lemma_take_contains(s: Seq<Seq<char>>, i: int)
    requires
        0 <= i < s.len(),
    ensures
        forall|f: Seq<char>| #[trigger] s.take(i + 1).contains(f) <==> s.take(i).contains(f) || f == s[i],
{
    assert forall|f: Seq<char>| #[trigger] s.take(i + 1).contains(f) <==> s.take(i).contains(f) || f == s[i] by {
        if s.take(i + 1).contains(f) {
            let k = s.take(i + 1).index_of(f);
            if k < i {
                assert(s.take(i)[k] == f);
            }
        }
        if s.take(i).contains(f) {
            let k = s.take(i).index_of(f);
            assert(s.take(i + 1)[k] == f);
        }
        if f == s[i] {
            assert(s.take(i + 1)[i] == f);
        }
    }
}

/// Whether the files by name are the ones in a list.
pub open spec fn files_of(files: Map<Seq<char>, Vec<u8>>, out: Seq<(String, Vec<u8>)>) -> bool {
    forall|i: int| 0 <= i < out.len() ==> files.dom().contains((#[trigger] out[i]).0@) && files[out[i].0@]@ == out[i].1@
}

/// What was written is read back: from files that hold what a catalog was written as, reading
/// succeeds, and the catalog that comes back holds the same indexes for the same fields.
pub proof fn law_catalog_round_trip(
    c: GlobalIndexCatalog,
    out: Seq<(String, Vec<u8>)>,
    files: Map<Seq<char>, Vec<u8>>,
    r: Result<GlobalIndexCatalog, GlobalIndexCatalogError>,
)
    requires
        writes_catalog(out, c),
        files_of(files, out),
        loads_catalog(r, files),
        c.hash_indexes@.dom() =~= c.hash_indexes.keys().to_set(),
        c.range_indexes@.dom() =~= c.range_indexes.keys().to_set(),
    ensures
        r matches Ok(x) && same_catalog(x, c),
{
    let h = c.hash_indexes.keys();
    let g = c.range_indexes.keys();
    assert(files.dom().contains(out[0].0@));
    assert(bincode_text_lists(h, g).is_prefix_of(out[0].1@));
    assert(manifest_says(files, h, g));
    assert forall|f: Seq<char>| #[trigger] c.hash_indexes@.dom().contains(f) implies holds_hash_index(
        files,
        f,
        c.hash_indexes@[f],
    ) by {
        assert(h.contains(f));
        let i = h.index_of(f);
        assert(out[1 + i].0@ == hash_file(h[i]));
        assert(files.dom().contains(out[1 + i].0@));
        let b = out[1 + i].1@;
        let x = c.hash_indexes@[f];
        let q = choose|q: Seq<(Seq<u8>, Seq<[u8; 8]>)>|
            b == bincode_hash_index(x.field@, q) && #[trigger] stored_as(b, x.field@, x.map@, q);
        assert(stored_as(stored_bytes(files, hash_file(f)), x.field@, x.map@, q));
    }
    assert forall|f: Seq<char>| #[trigger] c.range_indexes@.dom().contains(f) implies holds_range_index(
        files,
        f,
        c.range_indexes@[f],
    ) by {
        assert(g.contains(f));
        let i = g.index_of(f);
        assert(out[1 + h.len() + i].0@ == range_file(g[i]));
        assert(files.dom().contains(out[1 + h.len() + i].0@));
        let x = c.range_indexes@[f];
        let b = out[1 + h.len() + i].1@;
        assert(bincode_range_index(x.field@, x.entries@).is_prefix_of(b));
    }
    assert forall|f: Seq<char>| #[trigger] c.hash_indexes@.dom().contains(f) <==> h.contains(f) by {
        assert(h.to_set().contains(f) <==> h.contains(f));
    }
    assert forall|f: Seq<char>| #[trigger] c.range_indexes@.dom().contains(f) <==> g.contains(f) by {
        assert(g.to_set().contains(f) <==> g.contains(f));
    }
    assert(holds_catalog(files, c, h, g));
}

} // verus!
