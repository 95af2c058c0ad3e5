use vstd::prelude::*;
use vstd::string::*;
use crate::json::{dec, decimal, json_quoted, quote, views};
use crate::order::{Entry, entry_views, canonical, lemma_canonical, sorted_set};
use crate::store::{PostingStore, uri_key, lookup, keys_unique, pair_views};

verus! {

/// `"field":"value"` pairs of `q`, comma-separated.
pub open spec fn members_text(q: Seq<Entry>) -> Seq<char>
    decreases q.len(),
{
    if q.len() == 0 {
        Seq::empty()
    } else {
        let one = json_quoted(q.last().0) + seq![':'] + json_quoted(q.last().1);
        if q.len() == 1 {
            one
        } else {
            members_text(q.drop_last()) + seq![','] + one
        }
    }
}

/// The JSON object whose members are the pairs of `q`, in order.
pub open spec fn object_text(q: Seq<Entry>) -> Seq<char> {
    seq!['{'] + members_text(q) + seq!['}']
}

/// The line of the document file for document `d`: its id, a tab, and its
/// fields as a JSON object with the keys in ascending order.
pub open spec fn doc_line(s: PostingStore, d: nat) -> Seq<char> {
    dec(d) + seq!['\t'] + object_text(canonical(s.doc_entries(d as int))) + seq!['\n']
}

/// The first `n` lines of the document file.
pub open spec fn doc_file(s: PostingStore, n: nat) -> Seq<char>
    decreases n,
{
    if n == 0 {
        Seq::empty()
    } else {
        doc_file(s, (n - 1) as nat) + doc_line(s, (n - 1) as nat)
    }
}

/// One line `value<TAB>id` for each entry of `q`, in order.
pub open spec fn inv_lines(q: Seq<Entry>) -> Seq<char>
    decreases q.len(),
{
    if q.len() == 0 {
        Seq::empty()
    } else {
        inv_lines(q.drop_last()) + q.last().0 + seq!['\t'] + dec(q.last().2 as nat) + seq!['\n']
    }
}

/// The inverted file of field `f`: values ascending, and the ids of each
/// value ascending.
pub open spec fn inverted_text(s: PostingStore, f: Seq<char>) -> Seq<char> {
    inv_lines(canonical(s.inv_entries(f)))
}

/// The fields that have an inverted file, ascending.
pub open spec fn field_name_list(s: PostingStore) -> Seq<Seq<char>> {
    canonical(s.name_entries()).map_values(|e: Entry| e.0)
}

fn object_of(q: &Vec<(String, String, usize)>) -> (r: String)
    ensures
        r@ == object_text(entry_views(q@)),
{
    proof { reveal_strlit("{"); }
    let mut out = String::from_str("{");
    let ghost ev = entry_views(q@);
    let mut i: usize = 0;
    while i < q.len()
        invariant
            i <= q@.len(),
            ev == entry_views(q@),
            out@ == seq!['{'] + members_text(ev.take(i as int)),
        decreases q@.len() - i,
    {
        proof { reveal_strlit(","); reveal_strlit(":"); }
        assert(ev.take(i + 1).drop_last() == ev.take(i as int));
        assert(ev.take(i + 1).last() == (q@[i as int].0@, q@[i as int].1@, q@[i as int].2));
        if i > 0 {
            out.append(",");
        }
        let k = quote(q[i].0.as_str());
        out.append(k.as_str());
        out.append(":");
        let v = quote(q[i].1.as_str());
        out.append(v.as_str());
        assert(out@ =~= seq!['{'] + members_text(ev.take(i + 1)));
        i = i + 1;
    }
    assert(ev.take(q@.len() as int) == ev);
    proof { reveal_strlit("}"); }
    out.append("}");
    assert(out@ =~= object_text(ev));
    out
}

/// The document file's line for document `d`.
pub fn render_document(s: &PostingStore, d: usize) -> (r: String)
    requires
        d < s.doc_count(),
    ensures
        r@ == doc_line(*s, d as nat),
{
    let entries = s.field_entries(d);
    let q = sorted_set(entries);
    proof {
        lemma_canonical(entry_views(q@));
    }
    let mut out = decimal(d as u64);
    proof { reveal_strlit("\t"); reveal_strlit("\n"); }
    out.append("\t");
    let obj = object_of(&q);
    out.append(obj.as_str());
    out.append("\n");
    assert(out@ =~= doc_line(*s, d as nat));
    out
}

/// The whole document file: one line per document, ids ascending.
pub fn render_doc_file(s: &PostingStore) -> (r: String)
    ensures
        r@ == doc_file(*s, s.doc_count()),
{
    let n = s.len();
    proof { reveal_strlit(""); }
    let mut out = String::from_str("");
    let mut d: usize = 0;
    while d < n
        invariant
            d <= n,
            n == s.doc_count(),
            out@ == doc_file(*s, d as nat),
        decreases n - d,
    {
        let line = render_document(s, d);
        out.append(line.as_str());
        d = d + 1;
    }
    out
}

/// The inverted file of field `f`.
pub fn render_inverted_file(s: &PostingStore, f: &str) -> (r: String)
    ensures
        r@ == inverted_text(*s, f@),
{
    let name = f.to_owned();
    let entries = s.inverted_entries(&name);
    let q = sorted_set(entries);
    proof {
        lemma_canonical(entry_views(q@));
    }
    let ghost ev = entry_views(q@);
    proof { reveal_strlit(""); }
    let mut out = String::from_str("");
    let mut i: usize = 0;
    while i < q.len()
        invariant
            i <= q@.len(),
            ev == entry_views(q@),
            out@ == inv_lines(ev.take(i as int)),
        decreases q@.len() - i,
    {
        proof { reveal_strlit("\t"); reveal_strlit("\n"); }
        assert(ev.take(i + 1).drop_last() == ev.take(i as int));
        assert(ev.take(i + 1).last() == (q@[i as int].0@, q@[i as int].1@, q@[i as int].2));
        out.append(q[i].0.as_str());
        out.append("\t");
        let id = decimal(q[i].2 as u64);
        out.append(id.as_str());
        out.append("\n");
        assert(out@ =~= inv_lines(ev.take(i + 1)));
        i = i + 1;
    }
    assert(ev.take(q@.len() as int) == ev);
    out
}

/// The fields that have an inverted file, ascending, each once.
pub fn field_names(s: &PostingStore) -> (r: Vec<String>)
    ensures
        views(r@) == field_name_list(*s),
{
    let entries = s.name_list();
    let q = sorted_set(entries);
    proof {
        lemma_canonical(entry_views(q@));
    }
    let ghost ev = entry_views(q@);
    let mut out: Vec<String> = Vec::new();
    let mut i: usize = 0;
    while i < q.len()
        invariant
            i <= q@.len(),
            ev == entry_views(q@),
            views(out@) == ev.take(i as int).map_values(|e: Entry| e.0),
        decreases q@.len() - i,
    {
        let ghost before = views(out@);
        out.push(q[i].0.clone());
        assert(ev[i as int].0 == q@[i as int].0@);
        assert(views(out@) == before.push(ev[i as int].0));
        assert(views(out@) =~= ev.take(i + 1).map_values(|e: Entry| e.0));
        i = i + 1;
    }
    assert(ev.take(q@.len() as int) == ev);
    assert(views(out@) =~= field_name_list(*s));
    out
}

/// What `serde_json::from_str` makes of a text as a map from strings to
/// strings: the pairs in ascending key order, or nothing if the text is not a
/// JSON object whose values are all strings.
pub uninterp spec fn decoded_fields(s: Seq<char>) -> Option<Seq<(Seq<char>, Seq<char>)>>;

/// Relies on `serde_json::from_str` into a `BTreeMap<String, String>`, whose
/// keys are distinct.
#[verifier::external_body]
fn decode_fields(s: &str) -> (r: Option<Vec<(String, String)>>)
    ensures
        match r {
            Some(v) => decoded_fields(s@) == Some(pair_views(v@)) && keys_unique(pair_views(v@)),
            None => decoded_fields(s@) is None,
        },
{
    serde_json::from_str::<std::collections::BTreeMap<String, String>>(s).ok().map(|m| m.into_iter().collect())
}

/// Why a line of the document file was refused.
pub enum LoadError {
    /// The line has no tab, or what follows it is not an object of strings.
    Malformed,
    /// The line's id is not the number of documents loaded before it.
    OutOfSequence,
    /// The object has no `URI` member.
    MissingUri,
}

/// The position of the first tab in `s`.
pub open spec fn first_tab(s: Seq<char>) -> Option<nat>
    decreases s.len(),
{
    if s.len() == 0 {
        None
    } else {
        match first_tab(s.drop_last()) {
            Some(i) => Some(i),
            None => if s.last() == '\t' { Some((s.len() - 1) as nat) } else { None },
        }
    }
}

/// Whether `fields` sets anything besides the identity.
pub open spec fn sets_a_field(fields: Seq<(Seq<char>, Seq<char>)>) -> bool {
    exists|i: int| 0 <= i < fields.len() && #[trigger] fields[i].0 != uri_key()
}

/// What loading a document whose fields are `fs` does to the store `s0`,
/// giving `s1`: each field but `URI` is put for the document whose identity
/// is the `URI` field; nothing happens if there is no other field.
pub open spec fn loaded(s0: PostingStore, s1: PostingStore, fs: Seq<(Seq<char>, Seq<char>)>) -> bool {
    let u = lookup(fs, uri_key())->0;
    let d = s0.target(u);
    &&& s1.wf()
    &&& s1.doc_count() == if sets_a_field(fs) && s0.id_of(u) is None {
        s0.doc_count() + 1
    } else {
        s0.doc_count()
    }
    &&& sets_a_field(fs) ==> s1.id_of(u) == Some(d) && s1.field(d as int, uri_key()) == Some(u)
    &&& !sets_a_field(fs) ==> s1 == s0
    &&& forall|k: Seq<char>| k != uri_key() && #[trigger] lookup(fs, k) is Some
        ==> s1.field(d as int, k) == lookup(fs, k)
    &&& forall|k: Seq<char>| k != uri_key() && #[trigger] lookup(fs, k) is None
        ==> s1.field(d as int, k) == s0.field(d as int, k)
    &&& forall|e: int, k: Seq<char>| e != d ==> #[trigger] s1.field(e, k) == s0.field(e, k)
}

/// Adds the document with id `id` and the fields `fields` to `s`: each field
/// but `URI` is put for the document whose identity is the `URI` field.
pub fn load_document(s: &mut PostingStore, id: usize, fields: &Vec<(String, String)>) -> (r: Result<(), LoadError>)
    requires
        old(s).wf(),
        old(s).doc_count() + 1 < usize::MAX,
        keys_unique(pair_views(fields@)),
    ensures
        final(s).wf(),
        id != old(s).doc_count() ==> r == Err::<(), LoadError>(LoadError::OutOfSequence) && *final(s) == *old(s),
        id == old(s).doc_count() && lookup(pair_views(fields@), uri_key()) is None ==> r == Err::<(), LoadError>(
            LoadError::MissingUri) && *final(s) == *old(s),
        id == old(s).doc_count() && lookup(pair_views(fields@), uri_key()) is Some ==> r is Ok,
        r is Ok ==> loaded(*old(s), *final(s), pair_views(fields@)),
{
    if id != s.len() {
        return Err(LoadError::OutOfSequence);
    }
    let ghost g = pair_views(fields@);
    proof { reveal_strlit("URI"); }
    let uri_name = String::from_str("URI");
    assert(uri_name@ =~= uri_key());
    let mut j: usize = 0;
    while j < fields.len() && !(fields[j].0 == uri_name)
        invariant
            j <= fields@.len(),
            g == pair_views(fields@),
            uri_name@ == uri_key(),
            forall|m: int| 0 <= m < j ==> #[trigger] g[m].0 != uri_key(),
        decreases fields@.len() - j,
    {
        j = j + 1;
    }
    if j == fields.len() {
        proof { crate::store::lemma_lookup_absent(g, uri_key()); }
        return Err(LoadError::MissingUri);
    }
    proof { crate::store::lemma_lookup_at(g, j as int); }
    let uri = &fields[j].1;
    let ghost u = uri@;
    assert(u == lookup(g, uri_key())->0);
    let ghost s0 = *s;
    let ghost d = s0.target(u);
    let mut i: usize = 0;
    while i < fields.len()
        invariant
            i <= fields@.len(),
            g == pair_views(fields@),
            keys_unique(g),
            uri_name@ == uri_key(),
            u == uri@,
            s0.wf(),
            d == s0.target(u),
            s.wf(),
            s0.doc_count() + 1 < usize::MAX,
            s.doc_count() == if sets_a_field(g.take(i as int)) && s0.id_of(u) is None {
                s0.doc_count() + 1
            } else {
                s0.doc_count()
            },
            sets_a_field(g.take(i as int)) ==> s.id_of(u) == Some(d) && s.field(d as int, uri_key()) == Some(u),
            !sets_a_field(g.take(i as int)) ==> *s == s0,
            forall|k: Seq<char>| k != uri_key() ==> #[trigger] s.field(d as int, k) == (
                if lookup(g.take(i as int), k) is Some { lookup(g.take(i as int), k) } else { s0.field(d as int, k) }),
            forall|e: int, k: Seq<char>| e != d ==> #[trigger] s.field(e, k) == s0.field(e, k),
        decreases fields@.len() - i,
    {
        let ghost t = g.take(i as int);
        let ghost t1 = g.take(i + 1);
        assert(t1 == t.push(g[i as int]));
        assert(keys_unique(t)) by {
            assert forall|a: int, b: int| 0 <= a < b < t.len() implies t[a].0 != t[b].0 by {
                assert(t[a] == g[a] && t[b] == g[b]);
            }
        }
        proof {
            if lookup(t, g[i as int].0) is Some {
                crate::store::lemma_lookup_found(t, g[i as int].0);
                let m = choose|m: int| 0 <= m < t.len() && t[m].0 == g[i as int].0 && t[m].1 == lookup(t, g[i as int].0)->0;
                assert(t[m] == g[m]);
            }
            assert forall|k: Seq<char>| #[trigger] lookup(t1, k) == if k == g[i as int].0 { Some(g[i as int].1) } else { lookup(t, k) } by {
                crate::store::lemma_lookup_push(t, g[i as int].0, g[i as int].1, k);
            }
        }
        if !(fields[i].0 == uri_name) {
            let ghost before = *s;
            let ghost had = sets_a_field(t);
            assert(s.target(u) == d) by {
                if !had {
                    assert(*s == s0);
                }
            }
            let _ = s.put(uri.as_str(), fields[i].0.as_str(), fields[i].1.as_str());
            proof {
                assert(sets_a_field(t1)) by {
                    assert(t1[i as int].0 != uri_key());
                }
                if !had {
                    assert(s0.id_of(u) is None ==> s.doc_count() == s0.doc_count() + 1);
                }
            }
        } else {
            proof {
                assert(sets_a_field(t1) == sets_a_field(t)) by {
                    if sets_a_field(t1) {
                        let m = choose|m: int| 0 <= m < t1.len() && #[trigger] t1[m].0 != uri_key();
                        assert(m != i);
                        assert(t[m] == t1[m]);
                    }
                    if sets_a_field(t) {
                        let m = choose|m: int| 0 <= m < t.len() && #[trigger] t[m].0 != uri_key();
                        assert(t1[m] == t[m]);
                    }
                }
            }
        }
        i = i + 1;
    }
    assert(g.take(fields@.len() as int) == g);
    Ok(())
}

/// Reads one line of the document file, `id<TAB>object`, into `s`.
pub fn load_line(s: &mut PostingStore, line: &str) -> (r: Result<(), LoadError>)
    requires
        old(s).wf(),
        old(s).doc_count() + 1 < usize::MAX,
    ensures
        final(s).wf(),
        first_tab(line@) is None ==> r == Err::<(), LoadError>(LoadError::Malformed) && *final(s) == *old(s),
        first_tab(line@) matches Some(t) ==> {
            let id = line@.take(t as int);
            let rest = line@.skip(t + 1 as int);
            &&& id != dec(old(s).doc_count()) ==> r == Err::<(), LoadError>(LoadError::OutOfSequence)
                && *final(s) == *old(s)
            &&& id == dec(old(s).doc_count()) && decoded_fields(rest) is None ==> r == Err::<(), LoadError>(
                LoadError::Malformed) && *final(s) == *old(s)
            &&& id == dec(old(s).doc_count()) && decoded_fields(rest) is Some ==> (r is Ok
                <==> lookup(decoded_fields(rest)->0, uri_key()) is Some)
            &&& id == dec(old(s).doc_count()) && decoded_fields(rest) is Some && lookup(decoded_fields(rest)->0,
                uri_key()) is None ==> r == Err::<(), LoadError>(LoadError::MissingUri) && *final(s) == *old(s)
            &&& r is Ok ==> loaded(*old(s), *final(s), decoded_fields(rest)->0)
        },
{
    let n = line.unicode_len();
    let mut t: usize = 0;
    while t < n && line.get_char(t) != '\t'
        invariant
            t <= n,
            n == line@.len(),
            first_tab(line@.take(t as int)) is None,
        decreases n - t,
    {
        assert(line@.take(t + 1).drop_last() == line@.take(t as int));
        t = t + 1;
    }
    if t == n {
        assert(line@.take(n as int) == line@);
        return Err(LoadError::Malformed);
    }
    proof {
        assert(line@.take(t + 1).drop_last() == line@.take(t as int));
        assert(first_tab(line@.take(t + 1)) == Some(t as nat));
        lemma_first_tab_prefix(line@, (t + 1) as int);
    }
    let id_text = line.substring_char(0, t).to_owned();
    let expected = decimal(s.len() as u64);
    if !(id_text == expected) {
        return Err(LoadError::OutOfSequence);
    }
    let rest = line.substring_char(t + 1, n);
    assert(rest@ == line@.skip(t + 1));
    match decode_fields(rest) {
        None => Err(LoadError::Malformed),
        Some(fields) => load_document(s, s.len(), &fields),
    }
}

proof fn lemma_first_tab_prefix(s: Seq<char>, k: int)
    requires
        0 <= k <= s.len(),
        first_tab(s.take(k)) is Some,
    ensures
        first_tab(s) == first_tab(s.take(k)),
    decreases s.len(),
{
    if k < s.len() {
        assert(s.drop_last().take(k) == s.take(k));
        lemma_first_tab_prefix(s.drop_last(), k);
    } else {
        assert(s.take(k) == s);
    }
}

/// Saving depends on what the store holds, not on the order it was filled
/// in: two stores whose documents have the same fields and whose inverted
/// indexes list the same documents are written out identically.
pub proof fn lemma_save_deterministic(a: PostingStore, b: PostingStore)
    requires
        a.wf(),
        b.wf(),
        a.doc_count() == b.doc_count(),
        forall|d: int, k: Seq<char>| #[trigger] a.field(d, k) == b.field(d, k),
        forall|f: Seq<char>, v: Seq<char>, d: usize| #[trigger] a.posted(f, v, d) == b.posted(f, v, d),
    ensures
        doc_file(a, a.doc_count()) == doc_file(b, b.doc_count()),
        forall|f: Seq<char>| #[trigger] inverted_text(a, f) == inverted_text(b, f),
        field_name_list(a) == field_name_list(b),
{
    lemma_doc_files_equal(a, b, a.doc_count());
    assert forall|f: Seq<char>| #[trigger] inverted_text(a, f) == inverted_text(b, f) by {
        assert(a.inv_entries(f) =~= b.inv_entries(f));
    }
    a.lemma_field_listed();
    b.lemma_field_listed();
    assert(a.name_entries() =~= b.name_entries()) by {
        assert forall|e: Entry| a.name_entries().contains(e) <==> b.name_entries().contains(e) by {
            if a.field_listed(e.0) {
                let (v, d) = choose|v: Seq<char>, d: usize| a.posted(e.0, v, d);
                assert(b.posted(e.0, v, d));
            }
            if b.field_listed(e.0) {
                let (v, d) = choose|v: Seq<char>, d: usize| b.posted(e.0, v, d);
                assert(a.posted(e.0, v, d));
            }
        }
    }
}

proof fn lemma_doc_files_equal(a: PostingStore, b: PostingStore, n: nat)
    requires
        a.wf(),
        b.wf(),
        n <= a.doc_count(),
        a.doc_count() == b.doc_count(),
        forall|d: int, k: Seq<char>| #[trigger] a.field(d, k) == b.field(d, k),
    ensures
        doc_file(a, n) == doc_file(b, n),
    decreases n,
{
    if n > 0 {
        lemma_doc_files_equal(a, b, (n - 1) as nat);
        let d = (n - 1) as int;
        a.lemma_doc_entries(d);
        b.lemma_doc_entries(d);
        assert(a.doc_entries(d) =~= b.doc_entries(d)) by {
            assert forall|e: Entry| a.doc_entries(d).contains(e) <==> b.doc_entries(d).contains(e) by {
                assert(a.field(d, e.0) == b.field(d, e.0));
            }
        }
    }
}

/// How one character of a field name is written in a file name: `/`, `\`,
/// `%` and NUL are percent-encoded, anything else stands as it is.
pub open spec fn escape_char(c: char) -> Seq<char> {
    if c == '/' {
        seq!['%', '2', 'F']
    } else if c == '\\' {
        seq!['%', '5', 'C']
    } else if c == '%' {
        seq!['%', '2', '5']
    } else if c == '\0' {
        seq!['%', '0', '0']
    } else {
        seq![c]
    }
}

pub open spec fn escape_name(s: Seq<char>) -> Seq<char>
    decreases s.len(),
{
    if s.len() == 0 {
        Seq::empty()
    } else {
        escape_name(s.drop_last()) + escape_char(s.last())
    }
}

/// The name of the inverted file of field `f`: `index.inv.` and the field
/// name, escaped so that it stays one file name in the slot directory.
pub fn inverted_file_name(f: &str) -> (r: String)
    ensures
        r@ == seq!['i', 'n', 'd', 'e', 'x', '.', 'i', 'n', 'v', '.'] + escape_name(f@),
{
    proof { reveal_strlit("index.inv."); }
    let mut out = String::from_str("index.inv.");
    let ghost head = out@;
    let n = f.unicode_len();
    let mut i: usize = 0;
    while i < n
        invariant
            i <= n,
            n == f@.len(),
            head == seq!['i', 'n', 'd', 'e', 'x', '.', 'i', 'n', 'v', '.'],
            out@ == head + escape_name(f@.take(i as int)),
        decreases n - i,
    {
        proof { reveal_strlit("%2F"); reveal_strlit("%5C"); reveal_strlit("%25"); reveal_strlit("%00"); }
        let c = f.get_char(i);
        assert(f@.take(i + 1).drop_last() == f@.take(i as int));
        assert(f@.take(i + 1).last() == c);
        if c == '/' {
            out.append("%2F");
        } else if c == '\\' {
            out.append("%5C");
        } else if c == '%' {
            out.append("%25");
        } else if c == '\0' {
            out.append("%00");
        } else {
            let one = f.substring_char(i, i + 1);
            assert(one@ =~= seq![c]);
            out.append(one);
        }
        assert(out@ =~= head + escape_name(f@.take(i + 1)));
        i = i + 1;
    }
    assert(f@.take(n as int) == f@);
    out
}

} // verus!
