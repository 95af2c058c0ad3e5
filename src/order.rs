use vstd::prelude::*;

verus! {

/// Lexicographic order on texts, character by character. On UTF-8 strings
/// this is the order of their bytes, which is how `str` compares.
pub open spec fn text_lt(a: Seq<char>, b: Seq<char>) -> bool
    decreases a.len(),
{
    if a.len() == 0 {
        b.len() > 0
    } else if b.len() == 0 {
        false
    } else if a[0] != b[0] {
        a[0] < b[0]
    } else {
        text_lt(a.drop_first(), b.drop_first())
    }
}

pub proof fn lemma_text_lt_irreflexive(a: Seq<char>)
    ensures
        !text_lt(a, a),
    decreases a.len(),
{
    if a.len() > 0 {
        lemma_text_lt_irreflexive(a.drop_first());
    }
}

pub proof fn lemma_text_lt_total(a: Seq<char>, b: Seq<char>)
    ensures
        a == b || text_lt(a, b) || text_lt(b, a),
        !(text_lt(a, b) && text_lt(b, a)),
    decreases a.len(),
{
    if a.len() > 0 && b.len() > 0 {
        if a[0] == b[0] {
            lemma_text_lt_total(a.drop_first(), b.drop_first());
            if a.drop_first() == b.drop_first() {
                assert(a == seq![a[0]] + a.drop_first());
                assert(b == seq![b[0]] + b.drop_first());
            }
        } else {
            assert(a[0] < b[0] || b[0] < a[0]);
        }
    } else if a.len() == 0 && b.len() == 0 {
        assert(a == b);
    }
}

pub proof fn lemma_text_lt_transitive(a: Seq<char>, b: Seq<char>, c: Seq<char>)
    requires
        text_lt(a, b),
        text_lt(b, c),
    ensures
        text_lt(a, c),
    decreases a.len(),
{
    if a.len() > 0 && b.len() > 0 && c.len() > 0 && a[0] == b[0] && b[0] == c[0] {
        lemma_text_lt_transitive(a.drop_first(), b.drop_first(), c.drop_first());
    }
}

/// What the sort orders: two texts and a number.
pub type Entry = (Seq<char>, Seq<char>, usize);

pub open spec fn entry_lt(x: Entry, y: Entry) -> bool {
    text_lt(x.0, y.0) || (x.0 == y.0 && (text_lt(x.1, y.1) || (x.1 == y.1 && x.2 < y.2)))
}

pub proof fn lemma_entry_lt_order(x: Entry, y: Entry, z: Entry)
    ensures
        !entry_lt(x, x),
        x == y || entry_lt(x, y) || entry_lt(y, x),
        !(entry_lt(x, y) && entry_lt(y, x)),
        entry_lt(x, y) && entry_lt(y, z) ==> entry_lt(x, z),
{
    lemma_text_lt_irreflexive(x.0);
    lemma_text_lt_irreflexive(x.1);
    lemma_text_lt_total(x.0, y.0);
    lemma_text_lt_total(x.1, y.1);
    if entry_lt(x, y) && entry_lt(y, z) {
        lemma_text_lt_irreflexive(y.0);
        lemma_text_lt_irreflexive(y.1);
        if text_lt(x.0, y.0) && text_lt(y.0, z.0) {
            lemma_text_lt_transitive(x.0, y.0, z.0);
        }
        if x.0 == y.0 && y.0 == z.0 && text_lt(x.1, y.1) && text_lt(y.1, z.1) {
            lemma_text_lt_transitive(x.1, y.1, z.1);
        }
    }
}

pub open spec fn entry_views(v: Seq<(String, String, usize)>) -> Seq<Entry> {
    v.map_values(|e: (String, String, usize)| (e.0@, e.1@, e.2))
}

/// Every entry is below every later one.
pub open spec fn sorted_strictly(s: Seq<Entry>) -> bool {
    forall|i: int, j: int| 0 <= i < j < s.len() ==> entry_lt(s[i], s[j])
}

/// Relies on `slice::sort`: it permutes the entries into ascending order, and
/// the order of a tuple of `String`, `String` and `usize` compares the first
/// field, then the second, then the third.
#[verifier::external_body]
pub(crate) fn sort_entries(v: &mut Vec<(String, String, usize)>)
    ensures
        entry_views(final(v)@).to_multiset() == entry_views(old(v)@).to_multiset(),
        forall|i: int, j: int|
            0 <= i < j < final(v)@.len() ==> !entry_lt(entry_views(final(v)@)[j], entry_views(final(v)@)[i]),
{
    v.sort();
}

/// Two strictly ascending sequences that hold the same entries are equal.
pub proof fn lemma_sorted_unique(a: Seq<Entry>, b: Seq<Entry>)
    requires
        sorted_strictly(a),
        sorted_strictly(b),
        a.to_set() == b.to_set(),
    ensures
        a == b,
    decreases a.len(),
{
    if a.len() == 0 {
        if b.len() > 0 {
            assert(b.to_set().contains(b[0]));
        }
        assert(b.len() == 0);
    } else {
        assert(a.to_set().contains(a[0]));
        assert(b.len() > 0);
        assert(b.to_set().contains(b[0]));
        let i = choose|i: int| 0 <= i < a.len() && a[i] == b[0];
        let j = choose|j: int| 0 <= j < b.len() && b[j] == a[0];
        if i > 0 && j > 0 {
            lemma_entry_lt_order(a[0], b[0], a[0]);
            assert(entry_lt(a[0], a[i]));
            assert(entry_lt(b[0], b[j]));
        }
        if i == 0 || j == 0 {
            assert(a[0] == b[0]);
        }
        assert(a[0] == b[0]);
        let a1 = a.drop_first();
        let b1 = b.drop_first();
        assert(sorted_strictly(a1)) by {
            assert forall|p: int, q: int| 0 <= p < q < a1.len() implies entry_lt(a1[p], a1[q]) by {
                assert(a1[p] == a[p + 1] && a1[q] == a[q + 1]);
            }
        }
        assert(sorted_strictly(b1)) by {
            assert forall|p: int, q: int| 0 <= p < q < b1.len() implies entry_lt(b1[p], b1[q]) by {
                assert(b1[p] == b[p + 1] && b1[q] == b[q + 1]);
            }
        }
        assert(a1.to_set() =~= b1.to_set()) by {
            assert forall|x: Entry| a1.to_set().contains(x) implies b1.to_set().contains(x) by {
                let p = choose|p: int| 0 <= p < a1.len() && a1[p] == x;
                assert(a.to_set().contains(x)) by { assert(a[p + 1] == x); }
                let q = choose|q: int| 0 <= q < b.len() && b[q] == x;
                lemma_entry_lt_order(a[0], x, x);
                assert(entry_lt(a[0], a[p + 1]));
                if q == 0 {
                    assert(false);
                }
                assert(b1[q - 1] == x);
            }
            assert forall|x: Entry| b1.to_set().contains(x) implies a1.to_set().contains(x) by {
                let p = choose|p: int| 0 <= p < b1.len() && b1[p] == x;
                assert(b.to_set().contains(x)) by { assert(b[p + 1] == x); }
                let q = choose|q: int| 0 <= q < a.len() && a[q] == x;
                lemma_entry_lt_order(b[0], x, x);
                assert(entry_lt(b[0], b[p + 1]));
                if q == 0 {
                    assert(false);
                }
                assert(a1[q - 1] == x);
            }
        }
        lemma_sorted_unique(a1, b1);
        assert(a == seq![a[0]] + a1);
        assert(b == seq![b[0]] + b1);
    }
}

/// The one strictly ascending sequence that holds exactly the entries of `s`.
pub open spec fn canonical(s: Set<Entry>) -> Seq<Entry> {
    choose|q: Seq<Entry>| sorted_strictly(q) && q.to_set() == s
}

pub proof fn lemma_canonical(q: Seq<Entry>)
    requires
        sorted_strictly(q),
    ensures
        canonical(q.to_set()) == q,
{
    let c = canonical(q.to_set());
    assert(sorted_strictly(c) && c.to_set() == q.to_set());
    lemma_sorted_unique(c, q);
}

/// The entries of `v` in ascending order, each once.
pub fn sorted_set(v: Vec<(String, String, usize)>) -> (r: Vec<(String, String, usize)>)
    ensures
        sorted_strictly(entry_views(r@)),
        entry_views(r@).to_set() == entry_views(v@).to_set(),
{
    let mut v = v;
    let ghost v0 = entry_views(v@);
    sort_entries(&mut v);
    let ghost s = entry_views(v@);
    proof {
        assert forall|x: Entry| s.to_set().contains(x) <==> v0.to_set().contains(x) by {
            vstd::seq_lib::to_multiset_contains(s, x);
            vstd::seq_lib::to_multiset_contains(v0, x);
        }
        assert(s.to_set() =~= v0.to_set());
    }
    let mut out: Vec<(String, String, usize)> = Vec::new();
    let mut i: usize = 0;
    while i < v.len()
        invariant
            i <= v@.len(),
            s == entry_views(v@),
            forall|a: int, b: int| 0 <= a < b < s.len() ==> !entry_lt(s[b], s[a]),
            sorted_strictly(entry_views(out@)),
            entry_views(out@).to_set() == s.take(i as int).to_set(),
            i > 0 ==> out@.len() > 0 && entry_views(out@).last() == s[i - 1],
            i == 0 ==> out@.len() == 0,
        decreases v@.len() - i,
    {
        let ghost o = entry_views(out@);
        let dup = out.len() > 0 && out[out.len() - 1].2 == v[i].2 && out[out.len() - 1].0 == v[i].0
            && out[out.len() - 1].1 == v[i].1;
        proof {
            assert(s.take(i + 1) == s.take(i as int).push(s[i as int]));
            s.take(i as int).lemma_push_to_set_commute(s[i as int]);
        }
        if !dup {
            let e = (v[i].0.clone(), v[i].1.clone(), v[i].2);
            out.push(e);
            proof {
                let o2 = entry_views(out@);
                assert(o2 == o.push(s[i as int]));
                o.lemma_push_to_set_commute(s[i as int]);
                if i > 0 {
                    lemma_entry_lt_order(s[i - 1], s[i as int], s[i as int]);
                    assert(entry_lt(o.last(), s[i as int]));
                }
                assert forall|a: int, b: int| 0 <= a < b < o2.len() implies entry_lt(o2[a], o2[b]) by {
                    if b == o.len() && a < o.len() - 1 {
                        lemma_entry_lt_order(o[a], o.last(), s[i as int]);
                    }
                }
            }
        } else {
            proof {
                assert(s[i as int] == o.last());
                assert(o.to_set().contains(o.last())) by {
                    assert(o[o.len() - 1] == o.last());
                }
                assert(o.to_set().insert(s[i as int]) =~= o.to_set());
            }
        }
        i = i + 1;
    }
    assert(s.take(v@.len() as int) == s);
    out
}

} // verus!
