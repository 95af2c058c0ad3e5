use vstd::prelude::*;
use vstd::string::*;

verus! {

/// A decoded JSON value. Numbers keep the kind they were read as: unsigned,
/// signed, or any other number, which is carried as its text.
pub enum Json {
    Null,
    Bool(bool),
    UInt(u64),
    Int(i64),
    Float(String),
    Str(String),
    Array(Vec<Json>),
    Object(Vec<(String, Json)>),
}

/// The decimal digits of `n`, most significant first, without leading zeros.
pub open spec fn dec(n: nat) -> Seq<char>
    decreases n,
{
    if n < 10 {
        seq![digit_char(n)]
    } else {
        dec(n / 10).push(digit_char(n % 10))
    }
}

pub open spec fn digit_char(d: nat) -> char {
    if d == 0 { '0' } else if d == 1 { '1' } else if d == 2 { '2' } else if d == 3 { '3' }
    else if d == 4 { '4' } else if d == 5 { '5' } else if d == 6 { '6' } else if d == 7 { '7' }
    else if d == 8 { '8' } else { '9' }
}

/// The decimal text of `n`.
pub fn decimal(n: u64) -> (r: String)
    ensures
        r@ == dec(n as nat),
{
    proof { reveal_strlit("0123456789"); reveal_strlit(""); }
    let digits = "0123456789";
    assert(digits@ =~= seq!['0', '1', '2', '3', '4', '5', '6', '7', '8', '9']);
    let mut out = String::from_str("");
    let mut m: u64 = n;
    while m >= 10
        invariant
            dec(n as nat) == dec(m as nat) + out@,
            digits@ == seq!['0', '1', '2', '3', '4', '5', '6', '7', '8', '9'],
        decreases m,
    {
        let d = (m % 10) as usize;
        let one = digits.substring_char(d, d + 1);
        assert(one@ =~= seq![digit_char(d as nat)]);
        let mut next = one.to_owned();
        next.append(out.as_str());
        assert(dec(m as nat) == dec((m / 10) as nat).push(digit_char((m % 10) as nat)));
        assert(dec(n as nat) =~= dec((m / 10) as nat) + next@);
        out = next;
        m = m / 10;
    }
    let d = m as usize;
    let one = digits.substring_char(d, d + 1);
    assert(one@ =~= seq![digit_char(d as nat)]);
    let mut r = one.to_owned();
    r.append(out.as_str());
    assert(r@ =~= dec(n as nat));
    r
}

/// The lower-case hexadecimal digit for `n < 16`.
pub open spec fn hex_char(n: nat) -> char {
    if n < 10 { digit_char(n) } else if n == 10 { 'a' } else if n == 11 { 'b' } else if n == 12 { 'c' }
    else if n == 13 { 'd' } else if n == 14 { 'e' } else { 'f' }
}

/// How one character stands inside a JSON string literal: quote and
/// backslash take a backslash, five control characters have a short escape,
/// the other control characters below U+0020 are written `\u00xx`, and every
/// other character stands as it is.
pub open spec fn json_escape(c: char) -> Seq<char> {
    if c == '"' {
        seq!['\\', '"']
    } else if c == '\\' {
        seq!['\\', '\\']
    } else if c == '\u{8}' {
        seq!['\\', 'b']
    } else if c == '\t' {
        seq!['\\', 't']
    } else if c == '\n' {
        seq!['\\', 'n']
    } else if c == '\u{c}' {
        seq!['\\', 'f']
    } else if c == '\r' {
        seq!['\\', 'r']
    } else if (c as u32) < 0x20 {
        seq!['\\', 'u', '0', '0', hex_char((c as u32 / 16) as nat), hex_char((c as u32 % 16) as nat)]
    } else {
        seq![c]
    }
}

pub open spec fn json_escaped(s: Seq<char>) -> Seq<char>
    decreases s.len(),
{
    if s.len() == 0 {
        Seq::empty()
    } else {
        json_escaped(s.drop_last()) + json_escape(s.last())
    }
}

/// A string written as a JSON literal: its escaped characters in quotes.
pub open spec fn json_quoted(s: Seq<char>) -> Seq<char> {
    seq!['"'] + json_escaped(s) + seq!['"']
}

/// Relies on `serde_json::to_string` on a `str`, which writes the string as a
/// JSON literal with the escapes of `json_escape`, and cannot fail.
#[verifier::external_body]
pub(crate) fn quote(s: &str) -> (r: String)
    ensures
        r@ == json_quoted(s@),
{
    serde_json::to_string(s).unwrap_or_default()
}

/// The text that a JSON value is written as, with no spaces.
pub open spec fn render(j: Json) -> Seq<char>
    decreases j,
{
    match j {
        Json::Null => seq!['n', 'u', 'l', 'l'],
        Json::Bool(b) => if b { seq!['t', 'r', 'u', 'e'] } else { seq!['f', 'a', 'l', 's', 'e'] },
        Json::UInt(n) => dec(n as nat),
        Json::Int(i) => if i < 0 { seq!['-'] + dec((-i) as nat) } else { dec(i as nat) },
        Json::Float(t) => t@,
        Json::Str(s) => json_quoted(s@),
        Json::Array(items) => seq!['['] + render_items(items@) + seq![']'],
        Json::Object(members) => seq!['{'] + render_members(members@) + seq!['}'],
    }
}

pub open spec fn render_items(s: Seq<Json>) -> Seq<char>
    decreases s,
{
    if s.len() == 0 {
        Seq::empty()
    } else if s.len() == 1 {
        render(s[0])
    } else {
        render_items(s.drop_last()) + seq![','] + render(s.last())
    }
}

pub open spec fn render_members(s: Seq<(String, Json)>) -> Seq<char>
    decreases s,
{
    if s.len() == 0 {
        Seq::empty()
    } else {
        let m = s.last();
        let one = json_quoted(m.0@) + seq![':'] + render(m.1);
        if s.len() == 1 {
            one
        } else {
            render_members(s.drop_last()) + seq![','] + one
        }
    }
}

/// Writes `j` as JSON text.
pub fn render_json(j: &Json) -> (r: String)
    ensures
        r@ == render(*j),
    decreases j,
{
    match j {
        Json::Null => {
            proof { reveal_strlit("null"); }
            String::from_str("null")
        },
        Json::Bool(b) => {
            proof { reveal_strlit("true"); reveal_strlit("false"); }
            if *b { String::from_str("true") } else { String::from_str("false") }
        },
        Json::UInt(n) => decimal(*n),
        Json::Int(i) => {
            if *i < 0 {
                let mag: u64 = if *i == i64::MIN { 9223372036854775808u64 } else { (-*i) as u64 };
                proof { reveal_strlit("-"); }
                let mut out = String::from_str("-");
                let digits = decimal(mag);
                out.append(digits.as_str());
                out
            } else {
                decimal(*i as u64)
            }
        },
        Json::Float(t) => t.clone(),
        Json::Str(s) => quote(s.as_str()),
        Json::Array(items) => {
            proof { reveal_strlit("["); reveal_strlit("]"); reveal_strlit(","); }
            let mut out = String::from_str("[");
            let mut i: usize = 0;
            while i < items.len()
                invariant
                    i <= items@.len(),
                    out@ == seq!['['] + render_items(items@.take(i as int)),
                    *j == Json::Array(*items),
                decreases items@.len() - i,
            {
                assert(items@.take(i + 1).drop_last() == items@.take(i as int));
                if i > 0 {
                    out.append(",");
                }
                proof {
                    assert(decreases_to!(*j => (*j)->Array_0));
                    assert(decreases_to!(items => items@));
                    assert(decreases_to!(items@ => items@[i as int]));
                    assert(decreases_to!(*j => items@[i as int]));
                    reveal_strlit(",");
                }
                let part = render_json(&items[i]);
                out.append(part.as_str());
                assert(items@.take(i + 1).last() == items@[i as int]);
                assert(out@ =~= seq!['['] + render_items(items@.take(i + 1)));
                i = i + 1;
            }
            assert(items@.take(items@.len() as int) == items@);
            out.append("]");
            assert(out@ =~= render(*j));
            out
        },
        Json::Object(members) => {
            proof { reveal_strlit("{"); reveal_strlit("}"); reveal_strlit(","); reveal_strlit(":"); }
            let mut out = String::from_str("{");
            let mut i: usize = 0;
            while i < members.len()
                invariant
                    i <= members@.len(),
                    out@ == seq!['{'] + render_members(members@.take(i as int)),
                    *j == Json::Object(*members),
                decreases members@.len() - i,
            {
                assert(members@.take(i + 1).drop_last() == members@.take(i as int));
                if i > 0 {
                    out.append(",");
                }
                let key = quote(members[i].0.as_str());
                out.append(key.as_str());
                out.append(":");
                proof {
                    assert(decreases_to!(*j => (*j)->Object_0));
                    assert(decreases_to!(members => members@));
                    assert(decreases_to!(members@ => members@[i as int]));
                    assert(decreases_to!(members@[i as int] => members@[i as int].1));
                    assert(decreases_to!(*j => members@[i as int].1));
                    reveal_strlit(",");
                    reveal_strlit(":");
                }
                let part = render_json(&members[i].1);
                out.append(part.as_str());
                assert(members@.take(i + 1).last() == members@[i as int]);
                assert(out@ =~= seq!['{'] + render_members(members@.take(i + 1)));
                i = i + 1;
            }
            assert(members@.take(members@.len() as int) == members@);
            out.append("}");
            assert(out@ =~= render(*j));
            out
        },
    }
}

/// The pieces of `p` between dots, in order; a path with no dot is one piece.
pub open spec fn split_dots(p: Seq<char>) -> Seq<Seq<char>>
    decreases p.len(),
{
    if p.len() == 0 {
        seq![Seq::empty()]
    } else {
        let prev = split_dots(p.drop_last());
        if p.last() == '.' {
            prev.push(Seq::empty())
        } else {
            prev.update(prev.len() - 1, prev.last().push(p.last()))
        }
    }
}

pub open spec fn is_digit(c: char) -> bool {
    '0' <= c && c <= '9'
}

pub open spec fn all_digits(d: Seq<char>) -> bool {
    forall|i: int| 0 <= i < d.len() ==> is_digit(#[trigger] d[i])
}

/// The number that a run of decimal digits spells.
pub open spec fn digits_val(d: Seq<char>) -> nat
    decreases d.len(),
{
    if d.len() == 0 {
        0
    } else {
        digits_val(d.drop_last()) * 10 + (d.last() as u32 - '0' as u32) as nat
    }
}

/// `s` without one leading `+`, if it has one.
pub open spec fn unsigned_part(s: Seq<char>) -> Seq<char> {
    if s.len() > 0 && s[0] == '+' { s.drop_first() } else { s }
}

/// A segment read as an array position: decimal digits, optionally after a
/// leading `+`, as `usize::from_str` reads them.
pub open spec fn index_of(s: Seq<char>) -> Option<nat> {
    let d = unsigned_part(s);
    if d.len() > 0 && all_digits(d) {
        Some(digits_val(d))
    } else {
        None
    }
}

proof fn lemma_digits_val_grows(d: Seq<char>, k: int)
    requires
        0 <= k <= d.len(),
        all_digits(d),
    ensures
        digits_val(d.take(k)) <= digits_val(d),
    decreases d.len(),
{
    if k < d.len() {
        let e = d.drop_last();
        assert(e.take(k) == d.take(k));
        assert(all_digits(e)) by {
            assert forall|i: int| 0 <= i < e.len() implies is_digit(#[trigger] e[i]) by {
                assert(e[i] == d[i]);
            }
        }
        lemma_digits_val_grows(e, k);
        assert(d.drop_last() == e);
        let x = (d.last() as u32 - '0' as u32) as nat;
        assert(digits_val(d) == digits_val(e) * 10 + x);
        assert(digits_val(e) * 10 >= digits_val(e)) by (nonlinear_arith);
    } else {
        assert(d.take(k) == d);
    }
}

/// The position that `seg` names in an array of `len` items, if it names one.
fn index_below(seg: &str, len: usize) -> (r: Option<usize>)
    ensures
        r == (match index_of(seg@) {
            Some(i) => if i < len { Some(i as usize) } else { None },
            None => None,
        }),
{
    let n = seg.unicode_len();
    let mut start: usize = 0;
    if n > 0 && seg.get_char(0) == '+' {
        start = 1;
    }
    let ghost d = unsigned_part(seg@);
    assert(d == seg@.subrange(start as int, n as int));
    if start == n || len == 0 {
        return None;
    }
    let mut v: usize = 0;
    let mut i: usize = start;
    while i < n
        invariant
            start <= i <= n,
            n == seg@.len(),
            d == seg@.subrange(start as int, n as int),
            d == unsigned_part(seg@),
            v < len,
            v == digits_val(d.take(i - start)),
            all_digits(d.take(i - start)),
        decreases n - i,
    {
        let c = seg.get_char(i);
        assert(d[i - start] == c);
        if !('0' <= c && c <= '9') {
            assert(!all_digits(d));
            assert(index_of(seg@) is None);
            return None;
        }
        let w: u128 = (v as u128) * 10 + ((c as u32) - ('0' as u32)) as u128;
        proof {
            let t = d.take(i - start + 1);
            assert(t.len() > 0);
            assert(t.last() == c);
            assert(t.drop_last() == d.take(i - start));
            assert(digits_val(t) == digits_val(t.drop_last()) * 10 + (t.last() as u32 - '0' as u32) as nat);
        }
        assert(digits_val(d.take(i - start + 1)) == w);
        assert(d.take(i - start + 1).drop_last() == d.take(i - start));
        assert(all_digits(d.take(i - start + 1))) by {
            let t = d.take(i - start + 1);
            assert forall|k: int| 0 <= k < t.len() implies is_digit(#[trigger] t[k]) by {
                if k < i - start {
                    assert(t[k] == d.take(i - start)[k]);
                }
            }
        }
        if w >= len as u128 {
            proof {
                if all_digits(d) {
                    lemma_digits_val_grows(d, i - start + 1);
                }
            }
            return None;
        }
        v = w as usize;
        i = i + 1;
    }
    assert(d.take(n - start) == d);
    assert(d.len() > 0);
    Some(v)
}

/// The text of each string in `s`.
pub open spec fn views(s: Seq<String>) -> Seq<Seq<char>> {
    s.map_values(|x: String| x@)
}

/// The segments of `path`, split at every dot.
fn split_path(path: &str) -> (r: Vec<String>)
    ensures
        views(r@) == split_dots(path@),
{
    let n = path.unicode_len();
    let mut segs: Vec<String> = Vec::new();
    let mut start: usize = 0;
    let mut i: usize = 0;
    assert(path@.take(0) =~= Seq::<char>::empty());
    assert(views(segs@).push(path@.subrange(0, 0)) =~= seq![Seq::<char>::empty()]);
    while i < n
        invariant
            start <= i <= n,
            n == path@.len(),
            split_dots(path@.take(i as int)) == views(segs@).push(
                path@.subrange(start as int, i as int),
            ),
        decreases n - i,
    {
        let c = path.get_char(i);
        let ghost prev = split_dots(path@.take(i as int));
        assert(path@.take(i + 1).drop_last() == path@.take(i as int));
        assert(path@.take(i + 1).last() == c);
        if c == '.' {
            let ghost old_segs = views(segs@);
            let ghost old_start = start;
            let seg = path.substring_char(start, i).to_owned();
            segs.push(seg);
            start = i + 1;
            assert(views(segs@) =~= old_segs.push(path@.subrange(old_start as int, i as int)));
            assert(path@.subrange(start as int, (i + 1) as int) =~= Seq::<char>::empty());
            assert(split_dots(path@.take(i + 1)) =~= views(segs@).push(
                path@.subrange(start as int, (i + 1) as int),
            ));
        } else {
            assert(path@.subrange(start as int, i + 1) == path@.subrange(start as int, i as int).push(c));
            assert(split_dots(path@.take(i + 1)) =~= views(segs@).push(
                path@.subrange(start as int, (i + 1) as int),
            ));
        }
        i = i + 1;
    }
    let last = path.substring_char(start, n).to_owned();
    segs.push(last);
    assert(path@.take(n as int) == path@);
    assert(views(segs@) =~= split_dots(path@));
    segs
}

/// The value of the first member of `m` whose key is `k`.
pub open spec fn member(m: Seq<(String, Json)>, k: Seq<char>) -> Option<Json>
    decreases m.len(),
{
    if m.len() == 0 {
        None
    } else if m[0].0@ == k {
        Some(m[0].1)
    } else {
        member(m.drop_first(), k)
    }
}

/// One step down a path: an array takes the segment as a position, an
/// object as a key; any other value has nothing below it.
pub open spec fn step(j: Json, seg: Seq<char>) -> Option<Json> {
    match j {
        Json::Array(items) => match index_of(seg) {
            Some(i) => if i < items@.len() { Some(items@[i as int]) } else { None },
            None => None,
        },
        Json::Object(m) => member(m@, seg),
        _ => None,
    }
}

/// The value reached from `j` by the segments `segs`, if every step succeeds.
pub open spec fn walk(j: Json, segs: Seq<Seq<char>>) -> Option<Json>
    decreases segs.len(),
{
    if segs.len() == 0 {
        Some(j)
    } else {
        match step(j, segs[0]) {
            Some(next) => walk(next, segs.drop_first()),
            None => None,
        }
    }
}

/// The text a leaf is indexed as: a string as it is, anything else as JSON.
pub open spec fn leaf_text(j: Json) -> Seq<char> {
    match j {
        Json::Str(s) => s@,
        _ => render(j),
    }
}

/// The text at `path` in `root`, if the path leads anywhere.
pub open spec fn resolved(root: Json, path: Seq<char>) -> Option<Seq<char>> {
    match walk(root, split_dots(path)) {
        Some(l) => Some(leaf_text(l)),
        None => None,
    }
}

fn step_exec<'a>(j: &'a Json, seg: &String) -> (r: Option<&'a Json>)
    ensures
        match r {
            Some(x) => step(*j, seg@) == Some(*x),
            None => step(*j, seg@) is None,
        },
{
    match j {
        Json::Array(items) => match index_below(seg.as_str(), items.len()) {
            Some(i) => Some(&items[i]),
            None => None,
        },
        Json::Object(m) => {
            let mut i: usize = 0;
            assert(m@.skip(0) == m@);
            while i < m.len()
                invariant
                    i <= m@.len(),
                    member(m@, seg@) == member(m@.skip(i as int), seg@),
                    *j == Json::Object(*m),
                decreases m@.len() - i,
            {
                assert(m@.skip(i as int).drop_first() == m@.skip(i + 1));
                assert(m@.skip(i as int)[0] == m@[i as int]);
                if m[i].0 == *seg {
                    return Some(&m[i].1);
                }
                i = i + 1;
            }
            None
        },
        _ => None,
    }
}

/// Walks `path`, split at dots, down from `root`, and returns the leaf's text.
pub fn resolve(root: &Json, path: &str) -> (r: Option<String>)
    ensures
        r matches Some(t) ==> resolved(*root, path@) == Some(t@),
        r is None ==> resolved(*root, path@) is None,
{
    let segs = split_path(path);
    let ghost ss = views(segs@);
    let mut cur: &Json = root;
    let mut i: usize = 0;
    assert(ss.skip(0) == ss);
    while i < segs.len()
        invariant
            i <= segs@.len(),
            ss == views(segs@),
            ss == split_dots(path@),
            walk(*root, ss) == walk(*cur, ss.skip(i as int)),
        decreases segs@.len() - i,
    {
        assert(ss.skip(i as int)[0] == segs@[i as int]@);
        assert(ss.skip(i as int).drop_first() == ss.skip(i + 1));
        match step_exec(cur, &segs[i]) {
            Some(next) => {
                cur = next;
            },
            None => {
                assert(walk(*cur, ss.skip(i as int)) is None);
                assert(split_dots(path@) == ss);
                assert(walk(*root, split_dots(path@)) is None);
                return None;
            },
        }
        i = i + 1;
    }
    assert(ss.skip(i as int).len() == 0);
    match cur {
        Json::Str(s) => Some(s.clone()),
        _ => Some(render_json(cur)),
    }
}

} // verus!
