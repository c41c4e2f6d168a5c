//! JSON values of `serde_json`: parsed, and carried through without being read.
use crate::support::str_map::StrMap;
use vstd::prelude::*;

verus! {

/// `serde_json::Value`.
#[verifier::external_type_specification]
#[verifier::external_body]
pub struct ExJsonValue(serde_json::Value);

/// `Value::clone`: the copy is the value itself over again.
#[verifier::external_body]
pub(crate) fn clone_value(v: &serde_json::Value) -> (r: serde_json::Value)
    ensures
        r == *v,
{
    v.clone()
}

/// The JSON value that a byte string spells, if it spells one.
pub uninterp spec fn json_in(b: Seq<u8>) -> Option<serde_json::Value>;

/// `serde_json::from_slice` into a value: the value that the bytes spell, and none where they are
/// no JSON. It is a function of the bytes alone.
#[verifier::external_body]
pub(crate) fn parse_json(b: &[u8]) -> (r: Option<serde_json::Value>)
    ensures
        r == json_in(b@),
{
    serde_json::from_slice::<serde_json::Value>(b).ok()
}

/// A record: JSON values by field name.
pub type Record = StrMap<serde_json::Value>;

/// What a record holds.
pub type RecordView = Map<Seq<char>, serde_json::Value>;

/// A copy of a record.
pub fn clone_record(r: &Record) -> (c: Record)
    ensures
        c@ == r@,
        c.keys() == r.keys(),
{
    let n = r.len();
    let mut out: Record = StrMap::new();
    let mut i: usize = 0;
    proof {
        assert(out.keys() =~= r.keys().take(0));
    }
    while i < n
        invariant
            0 <= i <= n,
            n == r.keys().len(),
            r.keys().no_duplicates(),
            forall|k: Seq<char>| #[trigger] r.keys().contains(k) <==> r@.dom().contains(k),
            out.keys() == r.keys().take(i as int),
            forall|k: Seq<char>| #[trigger] out@.dom().contains(k) <==> r.keys().take(i as int).contains(k),
            forall|k: Seq<char>| #[trigger] out@.dom().contains(k) ==> out@[k] == r@[k],
        decreases n - i,
    {
        let key = r.key(i);
        let value = clone_value(r.value(i));
        let ghost before = out@;
        proof {
            let done = r.keys().take(i as int);
            if done.contains(key@) {
                let j = done.index_of(key@);
                assert(r.keys()[j] == r.keys()[i as int]);
            }
            assert(!before.dom().contains(key@));
        }
        let _ = out.insert(key.clone(), value);
        proof {
            let done = r.keys().take(i as int);
            let now = r.keys().take(i + 1);
            assert(now =~= done.push(key@));
            assert forall|k: Seq<char>| #[trigger] out@.dom().contains(k) <==> now.contains(k) by {
                if now.contains(k) {
                    let j = now.index_of(k);
                    if j < i {
                        assert(done[j] == k);
                    }
                }
                if done.contains(k) {
                    assert(now[done.index_of(k)] == k);
                }
                assert(now[i as int] == key@);
            }
            assert forall|k: Seq<char>| #[trigger] out@.dom().contains(k) implies out@[k] == r@[k] by {
                if k != key@ {
                    assert(before.dom().contains(k));
                }
            }
        }
        i += 1;
    }
    proof {
        assert(r.keys().take(n as int) =~= r.keys());
        assert(out@ =~= r@);
    }
    out
}

} // verus!
