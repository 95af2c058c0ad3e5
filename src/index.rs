use vstd::prelude::*;
use vstd::string::*;
use crate::json::{Json, dec, decimal, member, resolve, resolved, views};
use crate::store::{PostingStore, PutError, uri_key};

verus! {

/// The settings of one build: the slot directory and the storage backend.
pub struct Index {
    slot: String,
    in_memory: bool,
}

impl Index {
    /// The slot directory, as text.
    pub closed spec fn slot_path(&self) -> Seq<char> {
        self.slot@
    }

    /// Whether the build sorts and merges in memory.
    pub closed spec fn memory_backed(&self) -> bool {
        self.in_memory
    }

    pub fn new(slot: &str, in_memory: bool) -> (r: Index)
        ensures
            r.slot_path() == slot@,
            r.memory_backed() == in_memory,
    {
        Index { slot: slot.to_owned(), in_memory }
    }

    /// The directory that the index is written to.
    pub fn slot(&self) -> (r: &str)
        ensures
            r@ == self.slot_path(),
    {
        self.slot.as_str()
    }

    /// Whether the index is built in memory.
    pub fn in_memory(&self) -> (r: bool)
        ensures
            r == self.memory_backed(),
    {
        self.in_memory
    }
}

/// Why a record could not be indexed.
pub enum IndexError {
    /// The record has no unsigned `timestamp` or no string `requestID`.
    MissingIdentity,
    /// A requested field is named `URI`, which is reserved.
    ReservedField,
}

pub open spec fn timestamp_key() -> Seq<char> {
    seq!['t', 'i', 'm', 'e', 's', 't', 'a', 'm', 'p']
}

pub open spec fn request_id_key() -> Seq<char> {
    seq!['r', 'e', 'q', 'u', 'e', 's', 't', 'I', 'D']
}

/// The identity of a record: `timestamp:requestID`, taken from its top-level
/// members when the first is an unsigned number and the second a string.
pub open spec fn identity(record: Json) -> Option<Seq<char>> {
    match record {
        Json::Object(m) => match (member(m@, timestamp_key()), member(m@, request_id_key())) {
            (Some(Json::UInt(n)), Some(Json::Str(id))) => Some(dec(n as nat) + seq![':'] + id@),
            _ => None,
        },
        _ => None,
    }
}

fn top_member<'a>(m: &'a Vec<(String, Json)>, key: &String) -> (r: Option<&'a Json>)
    ensures
        match r {
            Some(x) => member(m@, key@) == Some(*x),
            None => member(m@, key@) is None,
        },
{
    let mut i: usize = 0;
    assert(m@.skip(0) == m@);
    while i < m.len()
        invariant
            i <= m@.len(),
            member(m@, key@) == member(m@.skip(i as int), key@),
        decreases m@.len() - i,
    {
        assert(m@.skip(i as int).drop_first() == m@.skip(i + 1));
        assert(m@.skip(i as int)[0] == m@[i as int]);
        if m[i].0 == *key {
            return Some(&m[i].1);
        }
        i = i + 1;
    }
    None
}

/// The identity of `record`, if it has one.
pub fn extract_uri(record: &Json) -> (r: Option<String>)
    ensures
        match r {
            Some(u) => identity(*record) == Some(u@),
            None => identity(*record) is None,
        },
{
    match record {
        Json::Object(m) => {
            proof { reveal_strlit("timestamp"); reveal_strlit("requestID"); reveal_strlit(":"); }
            let tk = String::from_str("timestamp");
            let rk = String::from_str("requestID");
            assert(tk@ =~= timestamp_key());
            assert(rk@ =~= request_id_key());
            match (top_member(m, &tk), top_member(m, &rk)) {
                (Some(Json::UInt(n)), Some(Json::Str(id))) => {
                    let mut out = decimal(*n);
                    out.append(":");
                    out.append(id.as_str());
                    Some(out)
                },
                _ => None,
            }
        },
        _ => None,
    }
}

/// Whether some requested path is named `URI` and resolves in `record`.
pub open spec fn reserved_hit(record: Json, params: Seq<Seq<char>>) -> bool {
    exists|i: int| 0 <= i < params.len() && #[trigger] params[i] == uri_key() && resolved(record, params[i]) is Some
}

/// Whether the requested path named `k` resolves in `record`.
pub open spec fn writes_key(record: Json, params: Seq<Seq<char>>, k: Seq<char>) -> bool {
    exists|i: int| 0 <= i < params.len() && #[trigger] params[i] == k && resolved(record, k) is Some
}

/// Whether some requested path resolves in `record`.
pub open spec fn writes_any(record: Json, params: Seq<Seq<char>>) -> bool {
    exists|i: int| 0 <= i < params.len() && #[trigger] resolved(record, params[i]) is Some
}

/// What indexing `record` under `params` does to the store `s0`, giving
/// `s1`: every path that resolves is put, under the path as field name, for
/// the document whose identity the record carries; nothing happens if no
/// path resolves.
pub open spec fn indexed(s0: PostingStore, s1: PostingStore, record: Json, params: Seq<Seq<char>>) -> bool {
    let u = identity(record)->0;
    let d = s0.target(u);
    &&& s1.wf()
    &&& s1.doc_count() == if writes_any(record, params) && s0.id_of(u) is None {
        s0.doc_count() + 1
    } else {
        s0.doc_count()
    }
    &&& writes_any(record, params) ==> s1.id_of(u) == Some(d) && s1.field(d as int, uri_key()) == Some(u)
    &&& !writes_any(record, params) ==> s1 == s0
    &&& forall|i: int| 0 <= i < params.len() && #[trigger] resolved(record, params[i]) is Some
        ==> s1.field(d as int, params[i]) == resolved(record, params[i])
    &&& forall|k: Seq<char>| k != uri_key() && !writes_key(record, params, k)
        ==> #[trigger] s1.field(d as int, k) == s0.field(d as int, k)
    &&& forall|e: int, k: Seq<char>| e != d ==> #[trigger] s1.field(e, k) == s0.field(e, k)
}

/// Indexes one record: each requested path that resolves is put, under the
/// path as field name, for the document whose identity the record carries.
/// A record without identity, or one where a path named `URI` resolves, is
/// refused before anything is put.
pub fn index_record(s: &mut PostingStore, record: &Json, params: &Vec<String>) -> (r: Result<(), IndexError>)
    requires
        old(s).wf(),
        old(s).doc_count() + 1 < usize::MAX,
    ensures
        final(s).wf(),
        identity(*record) is None ==> r == Err::<(), IndexError>(IndexError::MissingIdentity) && *final(s) == *old(s),
        identity(*record) is Some && reserved_hit(*record, views(params@)) ==> r == Err::<(), IndexError>(
            IndexError::ReservedField) && *final(s) == *old(s),
        identity(*record) is Some && !reserved_hit(*record, views(params@)) ==> r is Ok,
        r is Ok ==> indexed(*old(s), *final(s), *record, views(params@)),
{
    let uri = match extract_uri(record) {
        Some(u) => u,
        None => { return Err(IndexError::MissingIdentity); },
    };
    proof { reveal_strlit("URI"); }
    let uri_name = String::from_str("URI");
    assert(uri_name@ =~= uri_key());
    let ghost ps = views(params@);
    let mut j: usize = 0;
    while j < params.len()
        invariant
            j <= params@.len(),
            ps == views(params@),
            uri_name@ == uri_key(),
            *s == *old(s),
            s.wf(),
            identity(*record) == Some(uri@),
            forall|m: int| 0 <= m < j ==> !(#[trigger] ps[m] == uri_key() && resolved(*record, ps[m]) is Some),
        decreases params@.len() - j,
    {
        assert(ps[j as int] == params@[j as int]@);
        if params[j] == uri_name {
            if resolve(record, params[j].as_str()).is_some() {
                assert(reserved_hit(*record, ps));
                return Err(IndexError::ReservedField);
            }
        }
        j = j + 1;
    }
    assert(!reserved_hit(*record, ps));
    let ghost u = uri@;
    let ghost s0 = *s;
    let ghost d = s0.target(u);
    let mut i: usize = 0;
    while i < params.len()
        invariant
            i <= params@.len(),
            ps == views(params@),
            !reserved_hit(*record, ps),
            u == uri@,
            identity(*record) == Some(u),
            s0 == *old(s),
            s0.wf(),
            s.wf(),
            d == s0.target(u),
            s0.doc_count() + 1 < usize::MAX,
            s.doc_count() == if writes_any(*record, ps.take(i as int)) && s0.id_of(u) is None {
                s0.doc_count() + 1
            } else {
                s0.doc_count()
            },
            writes_any(*record, ps.take(i as int)) ==> s.id_of(u) == Some(d) && s.field(d as int, uri_key())
                == Some(u),
            !writes_any(*record, ps.take(i as int)) ==> *s == s0,
            forall|m: int| 0 <= m < i && #[trigger] resolved(*record, ps[m]) is Some
                ==> s.field(d as int, ps[m]) == resolved(*record, ps[m]),
            forall|k: Seq<char>| k != uri_key() && !writes_key(*record, ps.take(i as int), k)
                ==> #[trigger] s.field(d as int, k) == s0.field(d as int, k),
            forall|e: int, k: Seq<char>| e != d ==> #[trigger] s.field(e, k) == s0.field(e, k),
        decreases params@.len() - i,
    {
        let ghost t = ps.take(i as int);
        let ghost t1 = ps.take(i + 1);
        assert(ps[i as int] == params@[i as int]@);
        assert(t1 == t.push(ps[i as int]));
        match resolve(record, params[i].as_str()) {
            Some(v) => {
                let ghost before = *s;
                assert(before.target(u) == d) by {
                    if !writes_any(*record, t) {
                        assert(before == s0);
                    }
                }
                assert(ps[i as int] != uri_key());
                let _ = s.put(uri.as_str(), params[i].as_str(), v.as_str());
                proof {
                    assert(writes_any(*record, t1)) by {
                        assert(t1[i as int] == ps[i as int]);
                    }
                    assert forall|k: Seq<char>| k != uri_key() && !writes_key(*record, t1, k)
                        implies #[trigger] s.field(d as int, k) == s0.field(d as int, k) by {
                        if writes_key(*record, t, k) {
                            let m = choose|m: int| 0 <= m < t.len() && #[trigger] t[m] == k && resolved(*record, k) is Some;
                            assert(t1[m] == k);
                        }
                        if k == ps[i as int] {
                            assert(t1[i as int] == k);
                        }
                    }
                }
            },
            None => {
                proof {
                    assert(writes_any(*record, t1) == writes_any(*record, t)) by {
                        if writes_any(*record, t1) {
                            let m = choose|m: int| 0 <= m < t1.len() && #[trigger] resolved(*record, t1[m]) is Some;
                            assert(m != i);
                            assert(t[m] == t1[m]);
                        }
                        if writes_any(*record, t) {
                            let m = choose|m: int| 0 <= m < t.len() && #[trigger] resolved(*record, t[m]) is Some;
                            assert(t1[m] == t[m]);
                        }
                    }
                    assert forall|k: Seq<char>| k != uri_key() && !writes_key(*record, t1, k)
                        implies #[trigger] s.field(d as int, k) == s0.field(d as int, k) by {
                        if writes_key(*record, t, k) {
                            let m = choose|m: int| 0 <= m < t.len() && #[trigger] t[m] == k && resolved(*record, k) is Some;
                            assert(t1[m] == k);
                        }
                    }
                }
            },
        }
        i = i + 1;
    }
    assert(ps.take(params@.len() as int) == ps);
    Ok(())
}

} // verus!
