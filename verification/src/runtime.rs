//! Collections of an engine root: their numbers, and their names by the files that are there.
use crate::digest::{blake3_bytes, blake3_digest};
use crate::support::bytes::{from_le, u32_from_le_at};
use crate::support::sort::{lemma_text_total, sort_texts, text_less};
use crate::support::text::{chars_of, contains_text, is_space, text_of, texts};
use vstd::prelude::*;
use vstd::utf8::encode_utf8;

verus! {

/// The number of a collection: the first four bytes of the digest of its name.
pub open spec fn collection_number(name: Seq<char>) -> u32 {
    from_le(blake3_digest(encode_utf8(name)).subrange(0, 4)) as u32
}

/// The number of a collection.
pub fn stable_collection_id(collection: &str) -> (r: u32)
    ensures
        r == collection_number(collection@),
{
    let d = blake3_bytes(collection.as_bytes());
    u32_from_le_at(d.as_slice(), 0)
}

/// Whether a text holds nothing but white space.
pub open spec fn blank(s: Seq<char>) -> bool {
    forall|i: int| 0 <= i < s.len() ==> is_space(#[trigger] s[i])
}

/// The collection that a log file belongs to: its name without `.wal`, unless that is blank.
pub open spec fn log_collection(file: Seq<char>) -> Option<Seq<char>> {
    let n = file.len() - 4;
    if n >= 0 && file.skip(n) == ".wal"@ && !blank(file.take(n)) {
        Some(file.take(n))
    } else {
        None
    }
}

/// The collection that a log file belongs to.
pub fn collection_of_log_file(file: &str) -> (r: Option<String>)
    ensures
        match r {
            Some(c) => log_collection(file@) == Some(c@),
            None => log_collection(file@) is None,
        },
{
    let chars = chars_of(file);
    let n: usize = chars.len();
    proof {
        reveal_strlit(".wal");
    }
    if n < 4 {
        return None;
    }
    let cut: usize = n - 4;
    let suffixed = chars[cut] == '.' && chars[cut + 1] == 'w' && chars[cut + 2] == 'a' && chars[cut + 3] == 'l';
    proof {
        if suffixed {
            assert(file@.skip(cut as int) =~= ".wal"@);
        } else {
            assert(file@.skip(cut as int) != ".wal"@) by {
                let t = file@.skip(cut as int);
                let w = ".wal"@;
                assert(t[0] != w[0] || t[1] != w[1] || t[2] != w[2] || t[3] != w[3]);
            }
        }
    }
    if !suffixed {
        return None;
    }
    let mut i: usize = 0;
    let mut only_space = true;
    while i < cut && only_space
        invariant
            0 <= i <= cut <= chars@.len(),
            chars@ == file@,
            only_space ==> forall|j: int| 0 <= j < i ==> is_space(#[trigger] chars@[j]),
            !only_space ==> exists|j: int| 0 <= j < cut && !is_space(#[trigger] chars@[j]),
        decreases cut - i,
    {
        if !chars[i].is_whitespace() {
            only_space = false;
        }
        i += 1;
    }
    let ghost name = file@.take(cut as int);
    if only_space {
        proof {
            assert forall|j: int| 0 <= j < name.len() implies is_space(#[trigger] name[j]) by {
                assert(name[j] == chars@[j]);
            }
        }
        None
    } else {
        proof {
            let j = choose|j: int| 0 <= j < cut && !is_space(#[trigger] chars@[j]);
            assert(name[j] == chars@[j]);
        }
        Some(text_of(&chars, 0, cut))
    }
}

/// Whether a name is among those known: of an open collection, or of a log file.
pub open spec fn known(open: Seq<Seq<char>>, files: Seq<Seq<char>>, name: Seq<char>) -> bool {
    open.contains(name) || exists|i: int| 0 <= i < files.len() && log_collection(#[trigger] files[i]) == Some(name)
}

/// The collections that are open or have a log file, each once, in alphabetical order.
pub fn list_known_collections(open: &Vec<String>, files: &Vec<String>) -> (r: Vec<String>)
    ensures
        forall|name: Seq<char>| #[trigger]
            texts(r@).contains(name) <==> known(texts(open@), texts(files@), name),
        forall|i: int, j: int| 0 <= i < j < r@.len() ==> text_less((#[trigger] r@[i])@, (#[trigger] r@[j])@),
{
    let ghost o = texts(open@);
    let ghost f = texts(files@);
    let mut out: Vec<String> = Vec::new();
    let mut i: usize = 0;
    while i < open.len()
        invariant
            0 <= i <= open@.len(),
            o == texts(open@),
            texts(out@).no_duplicates(),
            forall|name: Seq<char>| #[trigger] texts(out@).contains(name) <==> o.take(i as int).contains(name),
        decreases open@.len() - i,
    {
        let ghost before = texts(out@);
        if !contains_text(&out, open[i].as_str()) {
            out.push(open[i].clone());
            proof {
                assert(texts(out@) =~= before.push(o[i as int]));
            }
        }
        proof {
            lemma_added(before, texts(out@), o[i as int]);
            lemma_taken(o, i as int);
        }
        i += 1;
    }
    proof {
        assert(o.take(open@.len() as int) =~= o);
    }
    let mut j: usize = 0;
    while j < files.len()
        invariant
            0 <= j <= files@.len(),
            o == texts(open@),
            f == texts(files@),
            texts(out@).no_duplicates(),
            forall|name: Seq<char>| #[trigger] texts(out@).contains(name) <==> o.contains(name) || exists|k: int|
                0 <= k < j && log_collection(#[trigger] f[k]) == Some(name),
        decreases files@.len() - j,
    {
        let ghost before = texts(out@);
        let found = collection_of_log_file(files[j].as_str());
        proof {
            assert(f[j as int] == files@[j as int]@);
        }
        if let Some(name) = found {
            let ghost here = name@;
            if !contains_text(&out, name.as_str()) {
                out.push(name);
                proof {
                    assert(texts(out@) =~= before.push(here));
                }
            }
            proof {
                lemma_added(before, texts(out@), here);
                assert forall|n: Seq<char>| #[trigger] texts(out@).contains(n) <==> o.contains(n) || exists|k: int|
                    0 <= k < j + 1 && log_collection(#[trigger] f[k]) == Some(n) by {
                    assert(texts(out@).contains(n) <==> before.contains(n) || n == here);
                    if n == here {
                        assert(log_collection(f[j as int]) == Some(n));
                    }
                }
            }
        } else {
            proof {
                assert(log_collection(f[j as int]) is None);
            }
        }
        j += 1;
    }
    let ghost unsorted = texts(out@);
    let sorted = sort_texts(out);
    proof {
        let s = texts(sorted@);
        broadcast use vstd::seq_lib::group_to_multiset_ensures;
        unsorted.lemma_multiset_has_no_duplicates();
        s.lemma_multiset_has_no_duplicates_conv();
        assert forall|name: Seq<char>| #[trigger] s.contains(name) <==> known(o, f, name) by {
            assert(s.contains(name) <==> s.to_multiset().contains(name));
            assert(unsorted.contains(name) <==> unsorted.to_multiset().contains(name));
        }
        assert forall|i: int, j: int| 0 <= i < j < sorted@.len() implies text_less(
            (#[trigger] sorted@[i])@,
            (#[trigger] sorted@[j])@,
        ) by {
            assert(s[i] == sorted@[i]@ && s[j] == sorted@[j]@);
            lemma_text_total(s[i], s[j]);
        }
    }
    sorted
}

proof fn lemma_added(before: Seq<Seq<char>>, after: Seq<Seq<char>>, x: Seq<char>)
    requires
        before.no_duplicates(),
        if before.contains(x) {
            after == before
        } else {
            after == before.push(x)
        },
    ensures
        after.no_duplicates(),
        forall|n: Seq<char>| #[trigger] after.contains(n) <==> before.contains(n) || n == x,
{
    assert forall|n: Seq<char>| #[trigger] after.contains(n) <==> before.contains(n) || n == x by {
        if after.contains(n) {
            let k = after.index_of(n);
            if k < before.len() {
                assert(before[k] == n);
            }
        }
        if before.contains(n) {
            assert(after[before.index_of(n)] == n);
        }
        if !before.contains(x) {
            assert(after[before.len() as int] == x);
        }
    }
}

proof fn lemma_taken(s: Seq<Seq<char>>, i: int)
    requires
        0 <= i < s.len(),
    ensures
        forall|n: Seq<char>| #[trigger] s.take(i + 1).contains(n) <==> s.take(i).contains(n) || n == s[i],
{
    assert forall|n: Seq<char>| #[trigger] s.take(i + 1).contains(n) <==> s.take(i).contains(n) || n == s[i] by {
        let now = s.take(i + 1);
        let done = s.take(i);
        if now.contains(n) {
            let k = now.index_of(n);
            if k < i {
                assert(done[k] == n);
            }
        }
        if done.contains(n) {
            assert(now[done.index_of(n)] == n);
        }
        assert(now[i] == s[i]);
    }
}

} // verus!
