use vstd::prelude::*;
use vstd::string::*;
use crate::order::{Entry, entry_views};

verus! {

/// The field that holds each document's identity.
pub open spec fn uri_key() -> Seq<char> {
    seq!['U', 'R', 'I']
}

/// The value of the first pair in `fs` whose field is `k`.
pub open spec fn lookup(fs: Seq<(Seq<char>, Seq<char>)>, k: Seq<char>) -> Option<Seq<char>>
    decreases fs.len(),
{
    if fs.len() == 0 {
        None
    } else if fs[0].0 == k {
        Some(fs[0].1)
    } else {
        lookup(fs.drop_first(), k)
    }
}

/// No field occurs twice in `fs`.
pub open spec fn keys_unique(fs: Seq<(Seq<char>, Seq<char>)>) -> bool {
    forall|i: int, j: int| 0 <= i < j < fs.len() ==> fs[i].0 != fs[j].0
}

pub proof fn lemma_lookup_at(fs: Seq<(Seq<char>, Seq<char>)>, i: int)
    requires
        keys_unique(fs),
        0 <= i < fs.len(),
    ensures
        lookup(fs, fs[i].0) == Some(fs[i].1),
    decreases fs.len(),
{
    if i > 0 {
        let t = fs.drop_first();
        assert(keys_unique(t)) by {
            assert forall|a: int, b: int| 0 <= a < b < t.len() implies t[a].0 != t[b].0 by {
                assert(t[a] == fs[a + 1] && t[b] == fs[b + 1]);
            }
        }
        assert(fs[0].0 != fs[i].0);
        lemma_lookup_at(t, i - 1);
        assert(t[i - 1] == fs[i]);
    }
}

pub proof fn lemma_lookup_absent(fs: Seq<(Seq<char>, Seq<char>)>, k: Seq<char>)
    requires
        forall|i: int| 0 <= i < fs.len() ==> #[trigger] fs[i].0 != k,
    ensures
        lookup(fs, k) is None,
    decreases fs.len(),
{
    if fs.len() > 0 {
        let t = fs.drop_first();
        assert forall|i: int| 0 <= i < t.len() implies #[trigger] t[i].0 != k by {
            assert(t[i] == fs[i + 1]);
        }
        lemma_lookup_absent(t, k);
    }
}

pub proof fn lemma_lookup_found(fs: Seq<(Seq<char>, Seq<char>)>, k: Seq<char>)
    requires
        lookup(fs, k) is Some,
    ensures
        exists|i: int| 0 <= i < fs.len() && fs[i].0 == k && fs[i].1 == lookup(fs, k)->0,
    decreases fs.len(),
{
    if fs[0].0 != k {
        let t = fs.drop_first();
        lemma_lookup_found(t, k);
        let i = choose|i: int| 0 <= i < t.len() && t[i].0 == k && t[i].1 == lookup(t, k)->0;
        assert(fs[i + 1] == t[i]);
    }
}

pub proof fn lemma_lookup_update(fs: Seq<(Seq<char>, Seq<char>)>, j: int, v: Seq<char>, k2: Seq<char>)
    requires
        keys_unique(fs),
        0 <= j < fs.len(),
    ensures
        keys_unique(fs.update(j, (fs[j].0, v))),
        lookup(fs.update(j, (fs[j].0, v)), k2) == if k2 == fs[j].0 { Some(v) } else { lookup(fs, k2) },
{
    let g = fs.update(j, (fs[j].0, v));
    assert(keys_unique(g)) by {
        assert forall|a: int, b: int| 0 <= a < b < g.len() implies g[a].0 != g[b].0 by {
            assert(g[a].0 == fs[a].0 && g[b].0 == fs[b].0);
        }
    }
    if k2 == fs[j].0 {
        lemma_lookup_at(g, j);
    } else if exists|i: int| 0 <= i < fs.len() && fs[i].0 == k2 {
        let i = choose|i: int| 0 <= i < fs.len() && fs[i].0 == k2;
        lemma_lookup_at(fs, i);
        assert(g[i] == fs[i]);
        lemma_lookup_at(g, i);
    } else {
        lemma_lookup_absent(fs, k2);
        assert forall|i: int| 0 <= i < g.len() implies #[trigger] g[i].0 != k2 by {
            assert(g[i].0 == fs[i].0);
        }
        lemma_lookup_absent(g, k2);
    }
}

pub proof fn lemma_lookup_push(fs: Seq<(Seq<char>, Seq<char>)>, k: Seq<char>, v: Seq<char>, k2: Seq<char>)
    requires
        keys_unique(fs),
        lookup(fs, k) is None,
    ensures
        keys_unique(fs.push((k, v))),
        lookup(fs.push((k, v)), k2) == if k2 == k { Some(v) } else { lookup(fs, k2) },
{
    let g = fs.push((k, v));
    assert(keys_unique(g)) by {
        assert forall|a: int, b: int| 0 <= a < b < g.len() implies g[a].0 != g[b].0 by {
            if b == fs.len() {
                if fs[a].0 == k {
                    lemma_lookup_at(fs, a);
                }
            }
        }
    }
    if k2 == k {
        lemma_lookup_at(g, fs.len() as int);
    } else if exists|i: int| 0 <= i < fs.len() && fs[i].0 == k2 {
        let i = choose|i: int| 0 <= i < fs.len() && fs[i].0 == k2;
        lemma_lookup_at(fs, i);
        lemma_lookup_at(g, i);
    } else {
        lemma_lookup_absent(fs, k2);
        assert forall|i: int| 0 <= i < g.len() implies #[trigger] g[i].0 != k2 by {
            if i < fs.len() {
                assert(g[i] == fs[i]);
            }
        }
        lemma_lookup_absent(g, k2);
    }
}

/// Why a put was refused.
pub enum PutError {
    /// The field is the one reserved for the document's identity.
    ReservedField,
}

/// The direct index (document id to fields) and the inverted index (field
/// and value to the documents that hold that value in that field).
pub struct PostingStore {
    docs: Vec<Vec<(String, String)>>,
    postings: Vec<(String, String, Vec<usize>)>,
}

pub open spec fn pair_views(fs: Seq<(String, String)>) -> Seq<(Seq<char>, Seq<char>)> {
    fs.map_values(|p: (String, String)| (p.0@, p.1@))
}

impl PostingStore {
    /// How many documents there are; their ids are `0..doc_count()`.
    pub closed spec fn doc_count(&self) -> nat {
        self.docs@.len()
    }

    /// The fields of document `d`, in the order they were first set.
    pub closed spec fn doc_fields(&self, d: int) -> Seq<(Seq<char>, Seq<char>)> {
        pair_views(self.docs@[d]@)
    }

    /// Whether the inverted index lists document `d` under field `f`, value `v`.
    pub closed spec fn posted(&self, f: Seq<char>, v: Seq<char>, d: usize) -> bool {
        exists|i: int|
            0 <= i < self.postings@.len() && #[trigger] self.postings@[i].0@ == f
                && self.postings@[i].1@ == v && self.postings@[i].2@.contains(d)
    }

    /// Whether some document's list of fields names `f`.
    pub closed spec fn field_listed(&self, f: Seq<char>) -> bool {
        exists|i: int| 0 <= i < self.postings@.len() && #[trigger] self.postings@[i].0@ == f
    }

    /// The value of field `k` in document `d`.
    pub open spec fn field(&self, d: int, k: Seq<char>) -> Option<Seq<char>> {
        if 0 <= d < self.doc_count() {
            lookup(self.doc_fields(d), k)
        } else {
            None
        }
    }

    /// The id of the document whose identity is `uri`, if there is one.
    pub open spec fn id_of(&self, uri: Seq<char>) -> Option<nat> {
        if exists|d: int| 0 <= d < self.doc_count() && self.field(d, uri_key()) == Some(uri) {
            Some(choose|d: nat| d < self.doc_count() && self.field(d as int, uri_key()) == Some(uri))
        } else {
            None
        }
    }

    pub closed spec fn postings_ok(&self) -> bool {
        &&& forall|i: int, j: int|
            0 <= i < j < self.postings@.len() ==> !(self.postings@[i].0@ == self.postings@[j].0@
                && self.postings@[i].1@ == self.postings@[j].1@)
        &&& forall|i: int|
            0 <= i < self.postings@.len() ==> (#[trigger] self.postings@[i]).2@.no_duplicates()
                && self.postings@[i].2@.len() > 0
    }

    pub closed spec fn docs_ok(&self) -> bool {
        &&& self.docs@.len() <= usize::MAX
        &&& forall|d: int| 0 <= d < self.docs@.len() ==> keys_unique(#[trigger] self.doc_fields(d))
        &&& forall|d: int| 0 <= d < self.docs@.len() ==> (#[trigger] self.field(d, uri_key())) is Some
        &&& forall|a: int, b: int|
            0 <= a < b < self.docs@.len() ==> #[trigger] self.field(a, uri_key()) != #[trigger] self.field(b, uri_key())
    }

    /// Both indexes agree: `d` is listed under `f` and `v` exactly when
    /// document `d` has value `v` in field `f`.
    pub closed spec fn consistent(&self) -> bool {
        forall|f: Seq<char>, v: Seq<char>, d: usize|
            #[trigger] self.posted(f, v, d) <==> self.field(d as int, f) == Some(v)
    }

    /// The store's invariant.
    pub closed spec fn wf(&self) -> bool {
        self.postings_ok() && self.docs_ok() && self.consistent()
    }

    /// An empty store.
    pub fn new() -> (r: PostingStore)
        ensures
            r.wf(),
            r.doc_count() == 0,
    {
        PostingStore { docs: Vec::new(), postings: Vec::new() }
    }

    /// The number of documents.
    pub fn len(&self) -> (r: usize)
        ensures
            r == self.doc_count(),
    {
        self.docs.len()
    }

    fn find_posting(&self, f: &String, v: &String) -> (r: Option<usize>)
        ensures
            match r {
                Some(i) => i < self.postings@.len() && self.postings@[i as int].0@ == f@
                    && self.postings@[i as int].1@ == v@,
                None => forall|i: int|
                    0 <= i < self.postings@.len() ==> !(#[trigger] self.postings@[i].0@ == f@
                        && self.postings@[i].1@ == v@),
            },
    {
        let mut i: usize = 0;
        while i < self.postings.len()
            invariant
                i <= self.postings@.len(),
                forall|k: int|
                    0 <= k < i ==> !(#[trigger] self.postings@[k].0@ == f@ && self.postings@[k].1@ == v@),
            decreases self.postings@.len() - i,
        {
            if self.postings[i].0 == *f && self.postings[i].1 == *v {
                return Some(i);
            }
            i = i + 1;
        }
        None
    }
    /// Lists document `d` under field `f`, value `v`.
    fn add_id(&mut self, f: &String, v: &String, d: usize)
        requires
            old(self).postings_ok(),
        ensures
            final(self).postings_ok(),
            final(self).docs@ == old(self).docs@,
            forall|f2: Seq<char>, v2: Seq<char>, d2: usize|
                #[trigger] final(self).posted(f2, v2, d2) <==> (old(self).posted(f2, v2, d2) || (f2 == f@
                    && v2 == v@ && d2 == d)),
    {
        match self.find_posting(f, v) {
            Some(i) => {
                let ghost before = self.postings@;
                let mut entry: (String, String, Vec<usize>) = (String::new(), String::new(), Vec::new());
                self.postings.set_and_swap(i, &mut entry);
                assert(entry == before[i as int]);
                let mut k: usize = 0;
                let mut found = false;
                while k < entry.2.len()
                    invariant
                        k <= entry.2@.len(),
                        !found ==> forall|m: int| 0 <= m < k ==> entry.2@[m] != d,
                        found ==> entry.2@.contains(d),
                    decreases entry.2@.len() - k,
                {
                    if entry.2[k] == d {
                        found = true;
                    }
                    k = k + 1;
                }
                let ghost ids0 = entry.2@;
                if !found {
                    entry.2.push(d);
                }
                self.postings.set(i, entry);
                let ghost ids1 = self.postings@[i as int].2@;
                assert(forall|x: usize| ids1.contains(x) <==> (ids0.contains(x) || x == d)) by {
                    assert forall|x: usize| ids1.contains(x) <==> (ids0.contains(x) || x == d) by {
                        if !found {
                            assert(ids1 == ids0.push(d));
                            if ids0.contains(x) {
                                let m = choose|m: int| 0 <= m < ids0.len() && ids0[m] == x;
                                assert(ids1[m] == x);
                            }
                            if x == d {
                                assert(ids1[ids0.len() as int] == d);
                            }
                        }
                    }
                }
                assert(ids1.no_duplicates()) by {
                    if !found {
                        assert(ids1 == ids0.push(d));
                        assert forall|a: int, b: int| 0 <= a < b < ids1.len() implies ids1[a] != ids1[b] by {
                            if b == ids0.len() {
                                assert(ids0[a] != d);
                            }
                        }
                    }
                }
                assert(self.postings@ == before.update(i as int, self.postings@[i as int]));
                assert forall|f2: Seq<char>, v2: Seq<char>, d2: usize|
                    #[trigger] self.posted(f2, v2, d2) <==> (old(self).posted(f2, v2, d2) || (f2 == f@
                        && v2 == v@ && d2 == d)) by {
                    if self.posted(f2, v2, d2) {
                        let m = choose|m: int|
                            0 <= m < self.postings@.len() && #[trigger] self.postings@[m].0@ == f2
                                && self.postings@[m].1@ == v2 && self.postings@[m].2@.contains(d2);
                        if m != i {
                            assert(old(self).postings@[m] == self.postings@[m]);
                        } else if d2 != d {
                            assert(old(self).postings@[m].0@ == f2);
                        }
                    }
                    if old(self).posted(f2, v2, d2) {
                        let m = choose|m: int|
                            0 <= m < old(self).postings@.len() && #[trigger] old(self).postings@[m].0@ == f2
                                && old(self).postings@[m].1@ == v2 && old(self).postings@[m].2@.contains(d2);
                        if m != i {
                            assert(old(self).postings@[m] == self.postings@[m]);
                        }
                        assert(self.postings@[m].0@ == f2);
                    }
                    if f2 == f@ && v2 == v@ && d2 == d {
                        assert(self.postings@[i as int].0@ == f2);
                    }
                }
            },
            None => {
                let ghost before = self.postings@;
                let mut ids: Vec<usize> = Vec::new();
                ids.push(d);
                self.postings.push((f.clone(), v.clone(), ids));
                let ghost n = before.len() as int;
                assert(self.postings@[n].2@ == seq![d]);
                assert(self.postings@[n].2@.contains(d)) by {
                    assert(self.postings@[n].2@[0] == d);
                }
                assert forall|f2: Seq<char>, v2: Seq<char>, d2: usize|
                    #[trigger] self.posted(f2, v2, d2) <==> (old(self).posted(f2, v2, d2) || (f2 == f@
                        && v2 == v@ && d2 == d)) by {
                    if self.posted(f2, v2, d2) {
                        let m = choose|m: int|
                            0 <= m < self.postings@.len() && #[trigger] self.postings@[m].0@ == f2
                                && self.postings@[m].1@ == v2 && self.postings@[m].2@.contains(d2);
                        if m < n {
                            assert(old(self).postings@[m] == self.postings@[m]);
                        }
                    }
                    if old(self).posted(f2, v2, d2) {
                        let m = choose|m: int|
                            0 <= m < old(self).postings@.len() && #[trigger] old(self).postings@[m].0@ == f2
                                && old(self).postings@[m].1@ == v2 && old(self).postings@[m].2@.contains(d2);
                        assert(old(self).postings@[m] == self.postings@[m]);
                    }
                    if f2 == f@ && v2 == v@ && d2 == d {
                        assert(self.postings@[n].0@ == f2);
                    }
                }
            },
        }
    }
    /// Takes document `d` off the list for field `f`, value `v`, and drops
    /// the list once it is empty.
    fn remove_id(&mut self, f: &String, v: &String, d: usize)
        requires
            old(self).postings_ok(),
        ensures
            final(self).postings_ok(),
            final(self).docs@ == old(self).docs@,
            forall|f2: Seq<char>, v2: Seq<char>, d2: usize|
                #[trigger] final(self).posted(f2, v2, d2) <==> (old(self).posted(f2, v2, d2) && !(f2 == f@
                    && v2 == v@ && d2 == d)),
    {
        match self.find_posting(f, v) {
            None => {
                assert forall|f2: Seq<char>, v2: Seq<char>, d2: usize|
                    #[trigger] self.posted(f2, v2, d2) <==> (old(self).posted(f2, v2, d2) && !(f2 == f@
                        && v2 == v@ && d2 == d)) by {
                    if self.posted(f2, v2, d2) && f2 == f@ && v2 == v@ {
                        let m = choose|m: int|
                            0 <= m < self.postings@.len() && #[trigger] self.postings@[m].0@ == f2
                                && self.postings@[m].1@ == v2 && self.postings@[m].2@.contains(d2);
                        assert(!(self.postings@[m].0@ == f@ && self.postings@[m].1@ == v@));
                    }
                }
            },
            Some(i) => {
                let ghost before = self.postings@;
                let mut entry: (String, String, Vec<usize>) = (String::new(), String::new(), Vec::new());
                self.postings.set_and_swap(i, &mut entry);
                assert(entry == before[i as int]);
                let ghost ids0 = entry.2@;
                let mut k: usize = 0;
                while k < entry.2.len() && entry.2[k] != d
                    invariant
                        k <= entry.2@.len(),
                        entry.2@ == ids0,
                        forall|m: int| 0 <= m < k ==> entry.2@[m] != d,
                    decreases entry.2@.len() - k,
                {
                    k = k + 1;
                }
                if k < entry.2.len() {
                    entry.2.remove(k);
                }
                let ghost ids1 = entry.2@;
                assert(forall|x: usize| ids1.contains(x) <==> (ids0.contains(x) && x != d)) by {
                    assert forall|x: usize| ids1.contains(x) <==> (ids0.contains(x) && x != d) by {
                        if k < ids0.len() {
                            assert(ids1 == ids0.remove(k as int));
                            if ids1.contains(x) {
                                let m = choose|m: int| 0 <= m < ids1.len() && ids1[m] == x;
                                if m < k {
                                    assert(ids0[m] == x);
                                } else {
                                    assert(ids0[m + 1] == x);
                                }
                            }
                            if ids0.contains(x) && x != d {
                                let m = choose|m: int| 0 <= m < ids0.len() && ids0[m] == x;
                                if m < k {
                                    assert(ids1[m] == x);
                                } else {
                                    assert(m != k);
                                    assert(ids1[m - 1] == x);
                                }
                            }
                        } else {
                            if ids0.contains(x) {
                                let m = choose|m: int| 0 <= m < ids0.len() && ids0[m] == x;
                                assert(ids0[m] != d);
                            }
                        }
                    }
                }
                assert(ids1.no_duplicates()) by {
                    if k < ids0.len() {
                        assert forall|a: int, b: int| 0 <= a < b < ids1.len() implies ids1[a] != ids1[b] by {
                            let a0 = if a < k { a } else { a + 1 };
                            let b0 = if b < k { b } else { b + 1 };
                            assert(ids1[a] == ids0[a0] && ids1[b] == ids0[b0]);
                        }
                    }
                }
                if entry.2.len() == 0 {
                    self.postings.remove(i);
                    assert forall|f2: Seq<char>, v2: Seq<char>, d2: usize|
                        #[trigger] self.posted(f2, v2, d2) <==> (old(self).posted(f2, v2, d2) && !(f2 == f@
                            && v2 == v@ && d2 == d)) by {
                        if self.posted(f2, v2, d2) {
                            let m = choose|m: int|
                                0 <= m < self.postings@.len() && #[trigger] self.postings@[m].0@ == f2
                                    && self.postings@[m].1@ == v2 && self.postings@[m].2@.contains(d2);
                            let m0 = if m < i { m } else { m + 1 };
                            assert(self.postings@[m] == before[m0]);
                            assert(old(self).postings@[m0].0@ == f2);
                            assert(m0 != i);
                        }
                        if old(self).posted(f2, v2, d2) && !(f2 == f@ && v2 == v@ && d2 == d) {
                            let m = choose|m: int|
                                0 <= m < old(self).postings@.len() && #[trigger] old(self).postings@[m].0@ == f2
                                    && old(self).postings@[m].1@ == v2 && old(self).postings@[m].2@.contains(d2);
                            if m == i {
                                assert(ids0.contains(d2));
                                assert(ids1.contains(d2));
                            }
                            let m1 = if m < i { m } else { m - 1 };
                            assert(self.postings@[m1] == before[m]);
                            assert(self.postings@[m1].0@ == f2);
                        }
                    }
                } else {
                    self.postings.set(i, entry);
                    assert forall|f2: Seq<char>, v2: Seq<char>, d2: usize|
                        #[trigger] self.posted(f2, v2, d2) <==> (old(self).posted(f2, v2, d2) && !(f2 == f@
                            && v2 == v@ && d2 == d)) by {
                        if self.posted(f2, v2, d2) {
                            let m = choose|m: int|
                                0 <= m < self.postings@.len() && #[trigger] self.postings@[m].0@ == f2
                                    && self.postings@[m].1@ == v2 && self.postings@[m].2@.contains(d2);
                            if m != i {
                                assert(self.postings@[m] == before[m]);
                            }
                            assert(old(self).postings@[m].0@ == f2);
                        }
                        if old(self).posted(f2, v2, d2) && !(f2 == f@ && v2 == v@ && d2 == d) {
                            let m = choose|m: int|
                                0 <= m < old(self).postings@.len() && #[trigger] old(self).postings@[m].0@ == f2
                                    && old(self).postings@[m].1@ == v2 && old(self).postings@[m].2@.contains(d2);
                            if m != i {
                                assert(self.postings@[m] == before[m]);
                            }
                            assert(self.postings@[m].0@ == f2);
                        }
                    }
                }
            },
        }
    }
    proof fn lemma_rebuilt(&self, s1: PostingStore, d: usize, k: Seq<char>, v: Seq<char>, u: Seq<char>)
        requires
            s1.wf(),
            d < s1.doc_count(),
            s1.field(d as int, uri_key()) == Some(u),
            k != uri_key(),
            self.postings_ok(),
            self.docs@.len() == s1.docs@.len(),
            keys_unique(self.doc_fields(d as int)),
            forall|e: int| 0 <= e < self.docs@.len() && e != d ==> self.docs@[e] == s1.docs@[e],
            forall|e: int, k2: Seq<char>| #[trigger] self.field(e, k2) == if e == d {
                if k2 == k { Some(v) } else { s1.field(e, k2) }
            } else {
                s1.field(e, k2)
            },
            forall|f2: Seq<char>, v2: Seq<char>, d2: usize|
                #[trigger] self.posted(f2, v2, d2) <==> ((s1.posted(f2, v2, d2) && !(f2 == k && d2 == d
                    && v2 != v)) || (f2 == k && v2 == v && d2 == d) || (f2 == uri_key() && v2 == u && d2 == d)),
        ensures
            self.wf(),
    {
        assert forall|e: int| 0 <= e < self.docs@.len() implies keys_unique(#[trigger] self.doc_fields(e)) by {
            if e != d {
                assert(self.docs@[e] == s1.docs@[e]);
                assert(self.doc_fields(e) == s1.doc_fields(e));
            }
        }
        assert forall|e: int| 0 <= e < self.docs@.len() implies (#[trigger] self.field(e, uri_key())) is Some by {
            assert(self.field(e, uri_key()) == s1.field(e, uri_key()));
        }
        assert forall|a: int, b: int| 0 <= a < b < self.docs@.len() implies
            #[trigger] self.field(a, uri_key()) != #[trigger] self.field(b, uri_key()) by {
            assert(self.field(a, uri_key()) == s1.field(a, uri_key()));
            assert(self.field(b, uri_key()) == s1.field(b, uri_key()));
        }
        assert forall|f2: Seq<char>, v2: Seq<char>, d2: usize|
            #[trigger] self.posted(f2, v2, d2) <==> self.field(d2 as int, f2) == Some(v2) by {
            assert(s1.posted(f2, v2, d2) <==> s1.field(d2 as int, f2) == Some(v2));
            assert(self.field(d2 as int, f2) == if d2 == d {
                if f2 == k { Some(v) } else { s1.field(d2 as int, f2) }
            } else {
                s1.field(d2 as int, f2)
            });
        }
    }

    /// The id that a put for `uri` writes to: the id of the document with
    /// that identity, or the next free id.
    pub open spec fn target(&self, uri: Seq<char>) -> nat {
        match self.id_of(uri) {
            Some(d) => d,
            None => self.doc_count(),
        }
    }

    /// Sets field `key` of the document whose identity is `uri` to `value`,
    /// creating that document first if there is none. The inverted index
    /// follows: the document is listed under (`key`, `value`) and under its
    /// own identity, and no longer under the value it held before.
    pub fn put(&mut self, uri: &str, key: &str, value: &str) -> (r: Result<(), PutError>)
        requires
            old(self).wf(),
            old(self).doc_count() < usize::MAX,
        ensures
            final(self).wf(),
            key@ == uri_key() <==> r is Err,
            key@ == uri_key() ==> *final(self) == *old(self),
            key@ != uri_key() ==> {
                let d = old(self).target(uri@);
                &&& final(self).doc_count() == if old(self).id_of(uri@) is Some {
                    old(self).doc_count()
                } else {
                    old(self).doc_count() + 1
                }
                &&& final(self).field(d as int, key@) == Some(value@)
                &&& final(self).field(d as int, uri_key()) == Some(uri@)
                &&& forall|k: Seq<char>| k != key@ && k != uri_key() ==> #[trigger] final(self).field(d as int, k)
                    == old(self).field(d as int, k)
                &&& forall|e: int, k: Seq<char>| e != d ==> #[trigger] final(self).field(e, k) == old(self).field(e, k)
                &&& final(self).id_of(uri@) == Some(d)
            },
    {
        proof {
            reveal_strlit("URI");
        }
        let uri_name = String::from_str("URI");
        assert(uri_name@ =~= uri_key());
        let k = key.to_owned();
        if k == uri_name {
            return Err(PutError::ReservedField);
        }
        let u = uri.to_owned();
        let v = value.to_owned();
        let ghost s0 = *self;
        let d: usize = match self.find_posting(&uri_name, &u) {
            Some(i) => {
                let d = self.postings[i].2[0];
                proof {
                    assert(self.postings@[i as int].2@.contains(d)) by {
                        assert(self.postings@[i as int].2@[0] == d);
                    }
                    assert(self.posted(uri_key(), u@, d));
                    assert(self.field(d as int, uri_key()) == Some(u@));
                    let c = choose|c: nat| c < self.doc_count() && self.field(c as int, uri_key()) == Some(u@);
                    if c < d {
                        assert(self.field(c as int, uri_key()) != self.field(d as int, uri_key()));
                    } else if c > d {
                        assert(self.field(d as int, uri_key()) != self.field(c as int, uri_key()));
                    }
                    assert(self.id_of(u@) == Some(d as nat));
                    assert(s0.target(uri@) == d);
                }
                d
            },
            None => {
                proof {
                    assert forall|e: int| 0 <= e < self.doc_count() implies self.field(e, uri_key()) != Some(u@) by {
                        if self.field(e, uri_key()) == Some(u@) {
                            assert(self.posted(uri_key(), u@, e as usize));
                        }
                    }
                    assert(self.id_of(u@) is None);
                }
                let d = self.docs.len();
                let mut fs: Vec<(String, String)> = Vec::new();
                fs.push((uri_name.clone(), u.clone()));
                self.docs.push(fs);
                proof {
                    let g = self.doc_fields(d as int);
                    assert(g == seq![(uri_key(), u@)]);
                    assert(keys_unique(g));
                    lemma_lookup_at(g, 0);
                    assert forall|e: int| 0 <= e < d implies #[trigger] self.doc_fields(e) == s0.doc_fields(e) by {
                        assert(self.docs@[e] == s0.docs@[e]);
                    }
                    assert(self.field(d as int, uri_key()) == Some(u@));
                    assert forall|e: int, k2: Seq<char>| e != d implies #[trigger] self.field(e, k2) == s0.field(e, k2) by {
                        if 0 <= e < d {
                            assert(self.doc_fields(e) == s0.doc_fields(e));
                        }
                    }
                    assert(self.docs_ok()) by {
                        assert forall|e: int| 0 <= e < self.docs@.len() implies keys_unique(#[trigger] self.doc_fields(e)) by {
                            if e < d {
                                assert(self.doc_fields(e) == s0.doc_fields(e));
                            }
                        }
                        assert forall|e: int| 0 <= e < self.docs@.len() implies (#[trigger] self.field(e, uri_key())) is Some by {
                            if e < d {
                                assert(self.field(e, uri_key()) == s0.field(e, uri_key()));
                            }
                        }
                        assert forall|a: int, b: int| 0 <= a < b < self.docs@.len() implies
                            #[trigger] self.field(a, uri_key()) != #[trigger] self.field(b, uri_key()) by {
                            assert(self.field(a, uri_key()) == s0.field(a, uri_key()));
                            if b < d {
                                assert(self.field(b, uri_key()) == s0.field(b, uri_key()));
                            }
                        }
                    }
                }
                let ghost s_mid = *self;
                proof {
                    lemma_lookup_push(Seq::empty(), uri_key(), u@, uri_key());
                    assert(seq![(uri_key(), u@)] == Seq::<(Seq<char>, Seq<char>)>::empty().push((uri_key(), u@)));
                }
                self.add_id(&uri_name, &u, d);
                proof {
                    assert(self.docs@ == s_mid.docs@);
                    assert(s_mid.postings@ == s0.postings@);
                    assert forall|f2: Seq<char>, v2: Seq<char>, d2: usize|
                        #[trigger] self.posted(f2, v2, d2) <==> self.field(d2 as int, f2) == Some(v2) by {
                        assert(s_mid.posted(f2, v2, d2) == s0.posted(f2, v2, d2));
                        assert(self.field(d2 as int, f2) == s_mid.field(d2 as int, f2));
                        if d2 != d {
                            assert(self.field(d2 as int, f2) == s0.field(d2 as int, f2));
                            assert(s0.posted(f2, v2, d2) <==> s0.field(d2 as int, f2) == Some(v2));
                        } else {
                            assert(s0.field(d2 as int, f2) is None);
                            assert(!s0.posted(f2, v2, d2));
                            lemma_lookup_push(Seq::empty(), uri_key(), u@, f2);
                            assert(s_mid.doc_fields(d as int) == seq![(uri_key(), u@)]);
                        }
                    }
                    assert(self.docs_ok()) by {
                        assert forall|e: int| 0 <= e < self.docs@.len() implies keys_unique(#[trigger] self.doc_fields(e)) by {
                            assert(self.doc_fields(e) == s_mid.doc_fields(e));
                        }
                        assert forall|e: int| 0 <= e < self.docs@.len() implies (#[trigger] self.field(e, uri_key())) is Some by {
                            assert(self.field(e, uri_key()) == s_mid.field(e, uri_key()));
                        }
                        assert forall|a: int, b: int| 0 <= a < b < self.docs@.len() implies
                            #[trigger] self.field(a, uri_key()) != #[trigger] self.field(b, uri_key()) by {
                            assert(self.field(a, uri_key()) == s_mid.field(a, uri_key()));
                            assert(self.field(b, uri_key()) == s_mid.field(b, uri_key()));
                        }
                    }
                    assert forall|e: int, k2: Seq<char>| e != d implies #[trigger] self.field(e, k2) == s0.field(e, k2) by {
                        assert(self.field(e, k2) == s_mid.field(e, k2));
                    }
                    assert forall|k2: Seq<char>| k2 != uri_key() implies #[trigger] self.field(d as int, k2) == s0.field(d as int, k2) by {
                        lemma_lookup_push(Seq::empty(), uri_key(), u@, k2);
                        assert(self.field(d as int, k2) == s_mid.field(d as int, k2));
                    }
                    assert(s0.target(uri@) == d);
                }
                d
            },
        };
        let ghost s1 = *self;
        assert(s1.wf());
        assert(s0.target(uri@) == d);
        assert(forall|e: int, k2: Seq<char>| e != d ==> #[trigger] s1.field(e, k2) == s0.field(e, k2));
        assert(forall|k2: Seq<char>| k2 != uri_key() ==> #[trigger] s1.field(d as int, k2) == s0.field(d as int, k2));
        assert(s1.doc_count() == if s0.id_of(uri@) is Some { s0.doc_count() } else { s0.doc_count() + 1 });
        assert(s1.field(d as int, uri_key()) == Some(u@));
        let mut fs: Vec<(String, String)> = Vec::new();
        self.docs.set_and_swap(d, &mut fs);
        let ghost g0 = pair_views(fs@);
        assert(g0 == s1.doc_fields(d as int));
        let mut j: usize = 0;
        while j < fs.len() && !(fs[j].0 == k)
            invariant
                j <= fs@.len(),
                g0 == pair_views(fs@),
                forall|m: int| 0 <= m < j ==> g0[m].0 != k@,
            decreases fs@.len() - j,
        {
            j = j + 1;
        }
        if j < fs.len() {
            let same = fs[j].1 == v;
            let old_value = fs[j].1.clone();
            assert(old_value@ == g0[j as int].1);
            assert(g0[j as int].0 == k@);
            proof {
                lemma_lookup_at(g0, j as int);
            }
            fs.set(j, (k.clone(), v.clone()));
            assert(pair_views(fs@) == g0.update(j as int, (g0[j as int].0, v@)));
            self.docs.set(d, fs);
            let ghost s2 = *self;
            if !same {
                self.remove_id(&k, &old_value, d);
            }
            let ghost s3 = *self;
            self.add_id(&k, &v, d);
            let ghost s4 = *self;
            self.add_id(&uri_name, &u, d);
            proof {
                assert(s2.postings@ == s1.postings@);
                assert forall|f2: Seq<char>, v2: Seq<char>, d2: usize|
                    #[trigger] self.posted(f2, v2, d2) <==> ((s1.posted(f2, v2, d2) && !(f2 == k@ && d2 == d
                        && v2 != v@)) || (f2 == k@ && v2 == v@ && d2 == d) || (f2 == uri_key() && v2 == u@ && d2 == d)) by {
                    assert(s2.posted(f2, v2, d2) == s1.posted(f2, v2, d2));
                    assert(s3.posted(f2, v2, d2) <==> s2.posted(f2, v2, d2) && !(!same && f2 == k@ && v2 == old_value@ && d2 == d));
                    assert(s4.posted(f2, v2, d2) <==> s3.posted(f2, v2, d2) || (f2 == k@ && v2 == v@ && d2 == d));
                    if f2 == k@ && d2 == d {
                        assert(s1.posted(f2, v2, d2) <==> s1.field(d as int, f2) == Some(v2));
                    }
                }
                let g1 = self.doc_fields(d as int);
                assert(g1 == g0.update(j as int, (g0[j as int].0, v@)));
                assert forall|e: int, k2: Seq<char>| #[trigger] self.field(e, k2) == if e == d {
                    if k2 == k@ { Some(v@) } else { s1.field(e, k2) }
                } else {
                    s1.field(e, k2)
                } by {
                    if e == d {
                        lemma_lookup_update(g0, j as int, v@, k2);
                    } else if 0 <= e < self.doc_count() {
                        assert(self.docs@[e] == s1.docs@[e]);
                    }
                }
                self.lemma_rebuilt(s1, d, k@, v@, u@);
            }
        } else {
            proof {
                lemma_lookup_absent(g0, k@);
            }
            fs.push((k.clone(), v.clone()));
            assert(pair_views(fs@) == g0.push((k@, v@)));
            self.docs.set(d, fs);
            let ghost s2 = *self;
            self.add_id(&k, &v, d);
            let ghost s4 = *self;
            self.add_id(&uri_name, &u, d);
            proof {
                assert(s2.postings@ == s1.postings@);
                assert forall|f2: Seq<char>, v2: Seq<char>, d2: usize|
                    #[trigger] self.posted(f2, v2, d2) <==> ((s1.posted(f2, v2, d2) && !(f2 == k@ && d2 == d
                        && v2 != v@)) || (f2 == k@ && v2 == v@ && d2 == d) || (f2 == uri_key() && v2 == u@ && d2 == d)) by {
                    assert(s2.posted(f2, v2, d2) == s1.posted(f2, v2, d2));
                    assert(s4.posted(f2, v2, d2) <==> s2.posted(f2, v2, d2) || (f2 == k@ && v2 == v@ && d2 == d));
                    if f2 == k@ && d2 == d {
                        assert(s1.posted(f2, v2, d2) <==> s1.field(d as int, f2) == Some(v2));
                    }
                }
                let g1 = self.doc_fields(d as int);
                assert(g1 == g0.push((k@, v@)));
                assert forall|e: int, k2: Seq<char>| #[trigger] self.field(e, k2) == if e == d {
                    if k2 == k@ { Some(v@) } else { s1.field(e, k2) }
                } else {
                    s1.field(e, k2)
                } by {
                    if e == d {
                        lemma_lookup_push(g0, k@, v@, k2);
                    } else if 0 <= e < self.doc_count() {
                        assert(self.docs@[e] == s1.docs@[e]);
                    }
                }
                self.lemma_rebuilt(s1, d, k@, v@, u@);
            }
        }
        proof {
            assert(self.field(d as int, uri_key()) == Some(u@));
            assert(d < self.doc_count());
            let c = choose|c: nat| c < self.doc_count() && self.field(c as int, uri_key()) == Some(u@);
            if c < d {
                assert(self.field(c as int, uri_key()) != self.field(d as int, uri_key()));
            } else if c > d {
                assert(self.field(d as int, uri_key()) != self.field(c as int, uri_key()));
            }
        }
        Ok(())
    }
    /// The fields of document `d` as entries (field, value, 0).
    pub open spec fn doc_entries(&self, d: int) -> Set<Entry> {
        self.doc_fields(d).map_values(|p: (Seq<char>, Seq<char>)| (p.0, p.1, 0usize)).to_set()
    }

    /// The postings of field `f` as entries (value, empty, document id).
    pub open spec fn inv_entries(&self, f: Seq<char>) -> Set<Entry> {
        Set::new(|e: Entry| e.1 == Seq::<char>::empty() && self.posted(f, e.0, e.2))
    }

    /// The fields that have postings, as entries (field, empty, 0).
    pub open spec fn name_entries(&self) -> Set<Entry> {
        Set::new(|e: Entry| e.1 == Seq::<char>::empty() && e.2 == 0 && self.field_listed(e.0))
    }

    /// The fields of document `d`, as (field, value, 0).
    pub fn field_entries(&self, d: usize) -> (r: Vec<(String, String, usize)>)
        requires
            d < self.doc_count(),
        ensures
            entry_views(r@).to_set() == self.doc_entries(d as int),
    {
        let fs = &self.docs[d];
        let ghost g = self.doc_fields(d as int).map_values(|p: (Seq<char>, Seq<char>)| (p.0, p.1, 0usize));
        let mut out: Vec<(String, String, usize)> = Vec::new();
        let mut i: usize = 0;
        while i < fs.len()
            invariant
                i <= fs@.len(),
                fs@ == self.docs@[d as int]@,
                g == self.doc_fields(d as int).map_values(|p: (Seq<char>, Seq<char>)| (p.0, p.1, 0usize)),
                entry_views(out@) == g.take(i as int),
            decreases fs@.len() - i,
        {
            let ghost before = entry_views(out@);
            assert(g[i as int] == (fs@[i as int].0@, fs@[i as int].1@, 0usize));
            out.push((fs[i].0.clone(), fs[i].1.clone(), 0));
            assert(entry_views(out@) == before.push(g[i as int]));
            assert(entry_views(out@) =~= g.take(i + 1));
            i = i + 1;
        }
        assert(g.take(fs@.len() as int) == g);
        out
    }

    /// Every posting of field `f`, as (value, empty, document id).
    pub fn inverted_entries(&self, f: &String) -> (r: Vec<(String, String, usize)>)
        ensures
            entry_views(r@).to_set() == self.inv_entries(f@),
    {
        let mut out: Vec<(String, String, usize)> = Vec::new();
        let mut i: usize = 0;
        while i < self.postings.len()
            invariant
                i <= self.postings@.len(),
                forall|e: Entry| entry_views(out@).contains(e) <==> (e.1 == Seq::<char>::empty() && exists|p: int|
                    0 <= p < i && #[trigger] self.postings@[p].0@ == f@ && self.postings@[p].1@ == e.0
                        && self.postings@[p].2@.contains(e.2)),
            decreases self.postings@.len() - i,
        {
            if self.postings[i].0 == *f {
                let ids = &self.postings[i].2;
                let mut k: usize = 0;
                while k < ids.len()
                    invariant
                        k <= ids@.len(),
                        i < self.postings@.len(),
                        *ids == self.postings@[i as int].2,
                        self.postings@[i as int].0@ == f@,
                        forall|e: Entry| entry_views(out@).contains(e) <==> (e.1 == Seq::<char>::empty() && (exists|p: int|
                            0 <= p < i && #[trigger] self.postings@[p].0@ == f@ && self.postings@[p].1@ == e.0
                                && self.postings@[p].2@.contains(e.2)) || (e.1 == Seq::<char>::empty()
                            && self.postings@[i as int].1@ == e.0 && ids@.take(k as int).contains(e.2))),
                    decreases ids@.len() - k,
                {
                    let ghost before = entry_views(out@);
                    out.push((self.postings[i].1.clone(), String::new(), ids[k]));
                    proof {
                        let ne: Entry = (self.postings@[i as int].1@, Seq::<char>::empty(), ids@[k as int]);
                        assert(entry_views(out@) == before.push(ne));
                        assert(ids@.take(k + 1) == ids@.take(k as int).push(ids@[k as int]));
                        assert forall|e: Entry| entry_views(out@).contains(e) <==> (e.1 == Seq::<char>::empty() && (exists|p: int|
                            0 <= p < i && #[trigger] self.postings@[p].0@ == f@ && self.postings@[p].1@ == e.0
                                && self.postings@[p].2@.contains(e.2)) || (e.1 == Seq::<char>::empty()
                            && self.postings@[i as int].1@ == e.0 && ids@.take(k + 1).contains(e.2))) by {
                            if entry_views(out@).contains(e) && e != ne {
                                let m = choose|m: int| 0 <= m < entry_views(out@).len() && entry_views(out@)[m] == e;
                                assert(before[m] == e);
                                assert(before.contains(e));
                            }
                            if e == ne {
                                assert(entry_views(out@)[before.len() as int] == ne);
                            }
                            if before.contains(e) {
                                let m = choose|m: int| 0 <= m < before.len() && before[m] == e;
                                assert(entry_views(out@)[m] == e);
                            }
                            if ids@.take(k + 1).contains(e.2) && !ids@.take(k as int).contains(e.2) {
                                let t = ids@.take(k + 1);
                                let m = choose|m: int| 0 <= m < t.len() && t[m] == e.2;
                                if m < k {
                                    assert(ids@.take(k as int)[m] == e.2);
                                }
                                assert(e.2 == ids@[k as int]);
                            }
                            if e == ne {
                                assert(ids@.take(k + 1)[k as int] == e.2);
                            }
                            if ids@.take(k as int).contains(e.2) {
                                let t = ids@.take(k as int);
                                let m = choose|m: int| 0 <= m < t.len() && t[m] == e.2;
                                assert(ids@.take(k + 1)[m] == e.2);
                            }
                        }
                    }
                    k = k + 1;
                }
                assert(ids@.take(ids@.len() as int) == ids@);
                assert forall|e: Entry| entry_views(out@).contains(e) <==> (e.1 == Seq::<char>::empty() && exists|p: int|
                    0 <= p < i + 1 && #[trigger] self.postings@[p].0@ == f@ && self.postings@[p].1@ == e.0
                        && self.postings@[p].2@.contains(e.2)) by {
                    if e.1 == Seq::<char>::empty() && self.postings@[i as int].1@ == e.0 && ids@.contains(e.2) {
                        assert(self.postings@[i as int].0@ == f@);
                    }
                }
            } else {
                assert forall|e: Entry| entry_views(out@).contains(e) <==> (e.1 == Seq::<char>::empty() && exists|p: int|
                    0 <= p < i + 1 && #[trigger] self.postings@[p].0@ == f@ && self.postings@[p].1@ == e.0
                        && self.postings@[p].2@.contains(e.2)) by {
                    if e.1 == Seq::<char>::empty() && exists|p: int|
                        0 <= p < i + 1 && #[trigger] self.postings@[p].0@ == f@ && self.postings@[p].1@ == e.0
                            && self.postings@[p].2@.contains(e.2) {
                        let p = choose|p: int|
                            0 <= p < i + 1 && #[trigger] self.postings@[p].0@ == f@ && self.postings@[p].1@ == e.0
                                && self.postings@[p].2@.contains(e.2);
                        assert(p != i);
                    }
                }
            }
            i = i + 1;
        }
        assert(entry_views(out@).to_set() =~= self.inv_entries(f@));
        out
    }

    /// Every field that has postings, as (field, empty, 0).
    pub fn name_list(&self) -> (r: Vec<(String, String, usize)>)
        ensures
            entry_views(r@).to_set() == self.name_entries(),
    {
        let mut out: Vec<(String, String, usize)> = Vec::new();
        let mut i: usize = 0;
        while i < self.postings.len()
            invariant
                i <= self.postings@.len(),
                forall|e: Entry| entry_views(out@).contains(e) <==> (e.1 == Seq::<char>::empty() && e.2 == 0
                    && exists|p: int| 0 <= p < i && #[trigger] self.postings@[p].0@ == e.0),
            decreases self.postings@.len() - i,
        {
            let ghost before = entry_views(out@);
            out.push((self.postings[i].0.clone(), String::new(), 0));
            proof {
                let ne: Entry = (self.postings@[i as int].0@, Seq::<char>::empty(), 0usize);
                assert(entry_views(out@) == before.push(ne));
                assert forall|e: Entry| entry_views(out@).contains(e) <==> (e.1 == Seq::<char>::empty() && e.2 == 0
                    && exists|p: int| 0 <= p < i + 1 && #[trigger] self.postings@[p].0@ == e.0) by {
                    if entry_views(out@).contains(e) && e != ne {
                        let m = choose|m: int| 0 <= m < entry_views(out@).len() && entry_views(out@)[m] == e;
                        assert(before[m] == e);
                        assert(before.contains(e));
                    }
                    if e == ne {
                        assert(entry_views(out@)[before.len() as int] == ne);
                    }
                    if before.contains(e) {
                        let m = choose|m: int| 0 <= m < before.len() && before[m] == e;
                        assert(entry_views(out@)[m] == e);
                    }
                    if e.1 == Seq::<char>::empty() && e.2 == 0 && exists|p: int| 0 <= p < i + 1 && #[trigger] self.postings@[p].0@ == e.0 {
                        let p = choose|p: int| 0 <= p < i + 1 && #[trigger] self.postings@[p].0@ == e.0;
                        if p == i {
                            assert(e == ne);
                        }
                    }
                }
            }
            i = i + 1;
        }
        assert(entry_views(out@).to_set() =~= self.name_entries());
        out
    }
    /// Every document holds an identity, and no two documents hold the same.
    pub proof fn lemma_identities_distinct(&self)
        requires
            self.wf(),
        ensures
            forall|d: int| 0 <= d < self.doc_count() ==> (#[trigger] self.field(d, uri_key())) is Some,
            forall|a: int, b: int|
                0 <= a < self.doc_count() && 0 <= b < self.doc_count() && a != b
                    ==> #[trigger] self.field(a, uri_key()) != #[trigger] self.field(b, uri_key()),
    {
        assert forall|a: int, b: int|
            0 <= a < self.doc_count() && 0 <= b < self.doc_count() && a != b
                implies #[trigger] self.field(a, uri_key()) != #[trigger] self.field(b, uri_key()) by {
            if b < a {
                assert(self.field(b, uri_key()) != self.field(a, uri_key()));
            }
        }
    }

    /// The two indexes agree: document `d` is listed under field `f` and
    /// value `v` exactly when its field `f` holds `v`.
    pub proof fn lemma_indexes_agree(&self)
        requires
            self.wf(),
        ensures
            forall|f: Seq<char>, v: Seq<char>, d: usize|
                #[trigger] self.posted(f, v, d) <==> self.field(d as int, f) == Some(v),
    {
    }

    /// The entries of document `d` are exactly its fields and their values.
    pub proof fn lemma_doc_entries(&self, d: int)
        requires
            self.wf(),
            0 <= d < self.doc_count(),
        ensures
            forall|e: Entry| #[trigger] self.doc_entries(d).contains(e) <==> (e.2 == 0 && self.field(d, e.0) == Some(e.1)),
    {
        let g = self.doc_fields(d);
        let m = g.map_values(|p: (Seq<char>, Seq<char>)| (p.0, p.1, 0usize));
        assert(keys_unique(g));
        assert forall|e: Entry| #[trigger] self.doc_entries(d).contains(e) <==> (e.2 == 0 && self.field(d, e.0) == Some(e.1)) by {
            if m.to_set().contains(e) {
                let i = choose|i: int| 0 <= i < m.len() && m[i] == e;
                lemma_lookup_at(g, i);
            }
            if e.2 == 0 && self.field(d, e.0) == Some(e.1) {
                lemma_lookup_found(g, e.0);
                let i = choose|i: int| 0 <= i < g.len() && g[i].0 == e.0 && g[i].1 == lookup(g, e.0)->0;
                assert(m[i] == e);
                assert(m.contains(e));
            }
        }
    }

    /// A field has postings exactly when some document is listed under it.
    pub proof fn lemma_field_listed(&self)
        requires
            self.wf(),
        ensures
            forall|f: Seq<char>| #[trigger] self.field_listed(f) <==> exists|v: Seq<char>, d: usize| self.posted(f, v, d),
    {
        assert forall|f: Seq<char>| #[trigger] self.field_listed(f) <==> exists|v: Seq<char>, d: usize| self.posted(f, v, d) by {
            if self.field_listed(f) {
                let i = choose|i: int| 0 <= i < self.postings@.len() && #[trigger] self.postings@[i].0@ == f;
                let ids = self.postings@[i].2@;
                assert(ids.len() > 0);
                assert(ids.contains(ids[0]));
                assert(self.posted(f, self.postings@[i].1@, ids[0]));
            }
        }
    }
}

} // verus!
