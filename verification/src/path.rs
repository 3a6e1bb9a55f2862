//! Unix paths as text: components, file names, joining and relative paths.
//!
//! A path is a row of components with `/` between them. Empty components and `.` count for
//! nothing, except that a path may begin with a `/` (its root) or with a `.` component of its own.

use vstd::prelude::*;
use vstd::string::*;

use crate::text;

verus! {

/// Whether `p` begins at the root.
pub open spec fn rooted(p: Seq<char>) -> bool {
    p.len() > 0 && p[0] == '/'
}

/// Whether `p` begins with a `.` component.
pub open spec fn dotted(p: Seq<char>) -> bool {
    p.len() > 0 && p[0] == '.' && (p.len() == 1 || p[1] == '/')
}

/// Where the components behind the root or the leading `.` begin.
pub open spec fn body_start(p: Seq<char>) -> int {
    if rooted(p) || dotted(p) {
        1
    } else {
        0
    }
}

/// A component that counts for nothing.
pub open spec fn void_component(c: Seq<char>) -> bool {
    c.len() == 0 || c == seq!['.']
}

/// Where the last component of `s` begins, not before `start`.
pub open spec fn last_start(s: Seq<char>, start: int) -> int
    decreases s.len(),
{
    if s.len() <= start || s.len() == 0 {
        start
    } else if s.last() == '/' {
        s.len() as int
    } else {
        last_start(s.drop_last(), start)
    }
}

/// `s` without its last component, not shorter than `start`.
pub open spec fn without_last(s: Seq<char>, start: int) -> Seq<char> {
    let c = last_start(s, start);
    s.take(if c > start {
        c - 1
    } else {
        start
    })
}

/// The last component lies behind the last `/`.
pub proof fn lemma_last_start(s: Seq<char>, start: int)
    requires
        0 <= start <= s.len(),
    ensures
        start <= last_start(s, start) <= s.len(),
        last_start(s, start) > start ==> s[last_start(s, start) - 1] == '/',
        forall|i: int| last_start(s, start) <= i < s.len() ==> s[i] != '/',
    decreases s.len(),
{
    if s.len() > start && s.last() != '/' {
        lemma_last_start(s.drop_last(), start);
        let c = last_start(s.drop_last(), start);
        if c > start {
            assert(s.drop_last()[c - 1] == s[c - 1]);
        }
        assert forall|i: int| c <= i < s.len() implies s[i] != '/' by {
            if i < s.len() - 1 {
                assert(s.drop_last()[i] == s[i]);
            }
        }
    }
}

/// `s` without the components behind that count for nothing, not shorter than `start`.
pub open spec fn settled(s: Seq<char>, start: int) -> Seq<char>
    decreases s.len(),
{
    if 0 <= start < s.len() && void_component(s.skip(last_start(s, start))) {
        proof {
            lemma_last_start(s, start);
        }
        settled(without_last(s, start), start)
    } else {
        s
    }
}

/// The last component of a path, where it is a name.
pub open spec fn name_of(p: Seq<char>) -> Option<Seq<char>> {
    let start = body_start(p);
    let q = settled(p, start);
    let name = q.skip(last_start(q, start));
    if q.len() <= start || name == seq!['.', '.'] {
        None
    } else {
        Some(name)
    }
}

/// The path without its last component.
pub open spec fn parent_of(p: Seq<char>) -> Seq<char> {
    let start = body_start(p);
    settled(without_last(settled(p, start), start), start)
}

/// `rest` as seen from `base`.
pub open spec fn joined(base: Seq<char>, rest: Seq<char>) -> Seq<char> {
    if rooted(rest) {
        rest
    } else if base.len() > 0 && base.last() != '/' {
        base.push('/') + rest
    } else {
        base + rest
    }
}

/// The path with its last component replaced by `name`.
pub open spec fn renamed(p: Seq<char>, name: Seq<char>) -> Seq<char> {
    if name_of(p) is Some {
        joined(parent_of(p), name)
    } else {
        joined(p, name)
    }
}

fn last_start_of(v: &Vec<char>, len: usize, start: usize) -> (c: usize)
    requires
        start <= len <= v@.len(),
    ensures
        c == last_start(v@.take(len as int), start as int),
        start <= c <= len,
{
    let mut c: usize = len;
    while c > start && v[c - 1] != '/'
        invariant
            start <= c <= len <= v@.len(),
            last_start(v@.take(len as int), start as int) == last_start(
                v@.take(c as int),
                start as int,
            ),
        decreases c,
    {
        proof {
            assert(v@.take(c as int).drop_last() =~= v@.take(c - 1));
            assert(v@.take(c as int).last() == v@[c - 1]);
        }
        c = c - 1;
    }
    proof {
        if c > start {
            assert(v@.take(c as int).last() == v@[c - 1]);
        }
    }
    c
}

fn void_between(v: &Vec<char>, from: usize, to: usize) -> (r: bool)
    requires
        from <= to <= v@.len(),
    ensures
        r == void_component(v@.subrange(from as int, to as int)),
{
    let ghost c = v@.subrange(from as int, to as int);
    proof {
        if c.len() == 1 {
            assert(c[0] == v@[from as int]);
            assert(c[0] == '.' ==> c =~= seq!['.']);
        }
    }
    from == to || (to - from == 1 && v[from] == '.')
}

fn body_start_of(v: &Vec<char>) -> (r: usize)
    ensures
        r == body_start(v@),
        r <= v@.len(),
{
    if v.len() > 0 && v[0] == '/' {
        1
    } else if v.len() > 0 && v[0] == '.' && (v.len() == 1 || v[1] == '/') {
        1
    } else {
        0
    }
}

fn settled_len(v: &Vec<char>, len: usize, start: usize) -> (r: usize)
    requires
        start <= len <= v@.len(),
    ensures
        start <= r <= len,
        settled(v@.take(len as int), start as int) == v@.take(r as int),
{
    let mut n: usize = len;
    while n > start
        invariant
            start <= n <= len <= v@.len(),
            settled(v@.take(len as int), start as int) == settled(v@.take(n as int), start as int),
        decreases n,
    {
        let c = last_start_of(v, n, start);
        let ghost s = v@.take(n as int);
        proof {
            assert(s.skip(c as int) =~= v@.subrange(c as int, n as int));
        }
        if !void_between(v, c, n) {
            return n;
        }
        let m: usize = if c > start {
            c - 1
        } else {
            start
        };
        proof {
            assert(without_last(s, start as int) =~= v@.take(m as int));
        }
        n = m;
    }
    n
}

/// The last component of a path, where it is a name.
pub fn file_name(p: &str) -> (r: Option<String>)
    ensures
        match r {
            Some(n) => name_of(p@) == Some(n@),
            None => name_of(p@) is None,
        },
{
    let v = text::chars_of(p);
    let start = body_start_of(&v);
    let n = settled_len(&v, v.len(), start);
    proof {
        assert(v@.take(v@.len() as int) =~= v@);
    }
    if n <= start {
        return None;
    }
    let c = last_start_of(&v, n, start);
    proof {
        assert(v@.take(n as int).skip(c as int) =~= v@.subrange(c as int, n as int));
    }
    if n - c == 2 && v[c] == '.' && v[c + 1] == '.' {
        proof {
            assert(v@.subrange(c as int, n as int) =~= seq!['.', '.']);
        }
        return None;
    }
    proof {
        let name = v@.subrange(c as int, n as int);
        if name == seq!['.', '.'] {
            assert(name[0] == v@[c as int]);
            assert(name[1] == v@[c + 1]);
        }
    }
    Some(text::text_between(&v, c, n))
}

/// `rest` as seen from `base`.
pub fn join(base: &str, rest: &str) -> (r: String)
    ensures
        r@ == joined(base@, rest@),
{
    let n: usize = rest.unicode_len();
    if n > 0 && rest.get_char(0) == '/' {
        return rest.to_owned();
    }
    let m: usize = base.unicode_len();
    if m > 0 && base.get_char(m - 1) != '/' {
        let mut r: String = base.to_owned();
        r.push('/');
        r.append(rest);
        r
    } else {
        text::cat(base, rest)
    }
}

/// The path with its last component replaced by `name`.
pub fn with_file_name(p: &str, name: &str) -> (r: String)
    ensures
        r@ == renamed(p@, name@),
{
    if file_name(p).is_none() {
        return join(p, name);
    }
    let v = text::chars_of(p);
    let start = body_start_of(&v);
    proof {
        assert(v@.take(v@.len() as int) =~= v@);
    }
    let n = settled_len(&v, v.len(), start);
    let c = last_start_of(&v, n, start);
    let m: usize = if c > start {
        c - 1
    } else {
        start
    };
    proof {
        assert(without_last(v@.take(n as int), start as int) =~= v@.take(m as int));
    }
    let k = settled_len(&v, m, start);
    let parent = text::text_between(&v, 0, k);
    proof {
        assert(v@.subrange(0, k as int) =~= v@.take(k as int));
    }
    join(parent.as_str(), name)
}

// ---------------------------------------------------------------------------
// Relative paths
// ---------------------------------------------------------------------------

/// Where the first component of `s` ends.
pub open spec fn first_end(s: Seq<char>) -> int
    decreases s.len(),
{
    if s.len() == 0 || s[0] == '/' {
        0
    } else {
        1 + first_end(s.drop_first())
    }
}

/// The first component of `s`.
pub open spec fn head(s: Seq<char>) -> Seq<char> {
    s.take(first_end(s))
}

/// What follows the first component of `s` and the `/` behind it.
pub open spec fn tail(s: Seq<char>) -> Seq<char> {
    if first_end(s) < s.len() {
        s.skip(first_end(s) + 1)
    } else {
        Seq::empty()
    }
}

/// The first component ends at the first `/`, or at the end.
pub proof fn lemma_first_end(s: Seq<char>)
    ensures
        0 <= first_end(s) <= s.len(),
        first_end(s) < s.len() ==> s[first_end(s)] == '/',
        forall|i: int| 0 <= i < first_end(s) ==> s[i] != '/',
    decreases s.len(),
{
    if s.len() > 0 && s[0] != '/' {
        lemma_first_end(s.drop_first());
        assert forall|i: int| 0 <= i < first_end(s) implies s[i] != '/' by {
            if i > 0 {
                assert(s.drop_first()[i - 1] == s[i]);
            }
        }
    }
}

/// `s` without the components in front that count for nothing.
pub open spec fn begun(s: Seq<char>) -> Seq<char>
    decreases s.len(),
{
    if s.len() > 0 && void_component(head(s)) {
        proof {
            lemma_first_end(s);
        }
        begun(tail(s))
    } else {
        s
    }
}

/// What is left of the components `s` when the components `b` are taken off their front.
pub open spec fn left_over(s: Seq<char>, b: Seq<char>) -> Option<Seq<char>>
    decreases b.len(),
{
    let s1 = begun(s);
    let b1 = begun(b);
    if b1.len() == 0 {
        Some(s1)
    } else if s1.len() == 0 || head(s1) != head(b1) {
        None
    } else {
        proof {
            lemma_begun(b);
            lemma_first_end(b1);
        }
        left_over(tail(s1), tail(b1))
    }
}

/// Taking void components off the front leaves an end of the text.
pub proof fn lemma_begun(s: Seq<char>)
    ensures
        begun(s).len() <= s.len(),
        begun(s) == s.skip(s.len() - begun(s).len()),
    decreases s.len(),
{
    if s.len() > 0 && void_component(head(s)) {
        lemma_first_end(s);
        lemma_begun(tail(s));
        let t = tail(s);
        assert(begun(s) =~= s.skip(s.len() - begun(s).len()));
    } else {
        assert(s.skip(0) =~= s);
    }
}

/// The path `p` as seen from `base`, if it lies below it.
pub open spec fn relative_to(p: Seq<char>, base: Seq<char>) -> Option<Seq<char>> {
    if base.len() == 0 {
        Some(settled(p, body_start(p)))
    } else if rooted(p) != rooted(base) || dotted(p) != dotted(base) {
        None
    } else {
        match left_over(p.skip(body_start(p)), base.skip(body_start(base))) {
            Some(rest) => Some(settled(rest, 0)),
            None => None,
        }
    }
}

fn first_end_from(v: &Vec<char>, from: usize) -> (e: usize)
    requires
        from <= v@.len(),
    ensures
        from <= e <= v@.len(),
        e - from == first_end(v@.skip(from as int)),
{
    let mut e: usize = from;
    while e < v.len() && v[e] != '/'
        invariant
            from <= e <= v@.len(),
            first_end(v@.skip(from as int)) == e - from + first_end(v@.skip(e as int)),
        decreases v@.len() - e,
    {
        proof {
            assert(v@.skip(e as int).drop_first() =~= v@.skip(e + 1));
        }
        e = e + 1;
    }
    e
}

fn tail_from(v: &Vec<char>, from: usize) -> (t: usize)
    requires
        from <= v@.len(),
    ensures
        from <= t <= v@.len(),
        v@.skip(t as int) == tail(v@.skip(from as int)),
        from < v@.len() ==> from < t,
{
    let e = first_end_from(v, from);
    let ghost s = v@.skip(from as int);
    proof {
        lemma_first_end(s);
    }
    if e < v.len() {
        proof {
            assert(v@.skip(e + 1) =~= tail(s));
        }
        e + 1
    } else {
        proof {
            assert(v@.skip(e as int) =~= tail(s));
        }
        e
    }
}

fn begun_from(v: &Vec<char>, from: usize) -> (b: usize)
    requires
        from <= v@.len(),
    ensures
        from <= b <= v@.len(),
        v@.skip(b as int) == begun(v@.skip(from as int)),
{
    let mut b: usize = from;
    while b < v.len()
        invariant
            from <= b <= v@.len(),
            begun(v@.skip(from as int)) == begun(v@.skip(b as int)),
        decreases v@.len() - b,
    {
        let e = first_end_from(v, b);
        proof {
            assert(head(v@.skip(b as int)) =~= v@.subrange(b as int, e as int));
        }
        if !void_between(v, b, e) {
            return b;
        }
        b = tail_from(v, b);
    }
    b
}

fn same_between(v: &Vec<char>, a: usize, b: usize, w: &Vec<char>, c: usize, d: usize) -> (r: bool)
    requires
        a <= b <= v@.len(),
        c <= d <= w@.len(),
    ensures
        r == (v@.subrange(a as int, b as int) == w@.subrange(c as int, d as int)),
{
    let ghost x = v@.subrange(a as int, b as int);
    let ghost y = w@.subrange(c as int, d as int);
    if b - a != d - c {
        proof {
            assert(x.len() != y.len());
        }
        return false;
    }
    let mut i: usize = 0;
    while i < b - a
        invariant
            a <= b <= v@.len(),
            c <= d <= w@.len(),
            b - a == d - c,
            i <= b - a,
            x == v@.subrange(a as int, b as int),
            y == w@.subrange(c as int, d as int),
            forall|j: int| 0 <= j < i ==> x[j] == y[j],
        decreases b - a - i,
    {
        if v[a + i] != w[c + i] {
            proof {
                assert(x[i as int] != y[i as int]);
            }
            return false;
        }
        i = i + 1;
    }
    proof {
        assert(x =~= y);
    }
    true
}

/// The path `p` as seen from `base`, if it lies below it.
pub fn relative(p: &str, base: &str) -> (r: Option<String>)
    ensures
        match r {
            Some(rest) => relative_to(p@, base@) == Some(rest@),
            None => relative_to(p@, base@) is None,
        },
{
    let v = text::chars_of(p);
    let w = text::chars_of(base);
    proof {
        assert(v@.take(v@.len() as int) =~= v@);
    }
    if w.len() == 0 {
        let n = settled_len(&v, v.len(), body_start_of(&v));
        proof {
            assert(v@.subrange(0, n as int) =~= v@.take(n as int));
        }
        return Some(text::text_between(&v, 0, n));
    }
    let v_start = body_start_of(&v);
    let w_start = body_start_of(&w);
    let v_root: bool = v.len() > 0 && v[0] == '/';
    let w_root: bool = w[0] == '/';
    if v_root != w_root || v_start != w_start {
        return None;
    }
    let mut i: usize = begun_from(&v, v_start);
    let mut j: usize = begun_from(&w, w_start);
    let ghost goal = left_over(v@.skip(v_start as int), w@.skip(w_start as int));
    let ghost mut s = v@.skip(v_start as int);
    let ghost mut b = w@.skip(w_start as int);
    while j < w.len()
        invariant
            i <= v@.len(),
            j <= w@.len(),
            v@.skip(i as int) == begun(s),
            w@.skip(j as int) == begun(b),
            goal == left_over(s, b),
            v@ == p@,
            w@ == base@,
            base@.len() > 0,
            rooted(p@) == rooted(base@),
            dotted(p@) == dotted(base@),
            goal == left_over(p@.skip(body_start(p@)), base@.skip(body_start(base@))),
        decreases w@.len() - j,
    {
        let ghost s1 = v@.skip(i as int);
        let ghost b1 = w@.skip(j as int);
        if i >= v.len() {
            return None;
        }
        let e = first_end_from(&v, i);
        let f = first_end_from(&w, j);
        proof {
            assert(head(s1) =~= v@.subrange(i as int, e as int));
            assert(head(b1) =~= w@.subrange(j as int, f as int));
        }
        if !same_between(&v, i, e, &w, j, f) {
            return None;
        }
        let i1 = tail_from(&v, i);
        let j1 = tail_from(&w, j);
        i = begun_from(&v, i1);
        j = begun_from(&w, j1);
        proof {
            s = tail(s1);
            b = tail(b1);
        }
    }
    let rest = text::text_between(&v, i, v.len());
    let u = text::chars_of(rest.as_str());
    proof {
        assert(u@ =~= v@.skip(i as int));
        assert(u@.take(u@.len() as int) =~= u@);
        assert(goal == Some(u@));
    }
    let n = settled_len(&u, u.len(), 0);
    proof {
        assert(u@.subrange(0, n as int) =~= u@.take(n as int));
    }
    Some(text::text_between(&u, 0, n))
}

// ---------------------------------------------------------------------------
// Laws
// ---------------------------------------------------------------------------

/// A text that can be the last component of a path and a name: it holds no `/` and is neither
/// empty nor `.` nor `..`.
pub open spec fn plain_name(n: Seq<char>) -> bool {
    &&& !void_component(n)
    &&& n != seq!['.', '.']
    &&& forall|i: int| 0 <= i < n.len() ==> n[i] != '/'
}

proof fn lemma_last_start_of_sum(x: Seq<char>, n: Seq<char>, start: int)
    requires
        0 <= start <= x.len(),
        x.len() > start ==> x.last() == '/',
        forall|i: int| 0 <= i < n.len() ==> n[i] != '/',
    ensures
        last_start(x + n, start) == x.len(),
    decreases n.len(),
{
    if n.len() == 0 {
        assert(x + n =~= x);
    } else {
        assert((x + n).drop_last() =~= x + n.drop_last());
        assert((x + n).last() == n.last());
        lemma_last_start_of_sum(x, n.drop_last(), start);
    }
}

/// The name that a path was joined with is the name of the path.
pub proof fn lemma_name_of_joined(base: Seq<char>, name: Seq<char>)
    requires
        plain_name(name),
    ensures
        name_of(joined(base, name)) == Some(name),
{
    let x = if base.len() > 0 && base.last() != '/' {
        base.push('/')
    } else {
        base
    };
    let p = joined(base, name);
    assert(p == x + name);
    let start = body_start(p);
    if x.len() == 0 {
        assert(p =~= name);
        if name.len() == 1 && name[0] == '.' {
            assert(name =~= seq!['.']);
        }
        assert(start == 0);
    } else {
        assert(p[x.len() - 1] == '/');
    }
    lemma_last_start_of_sum(x, name, start);
    assert(p.skip(x.len() as int) =~= name);
    assert(settled(p, start) == p);
}

/// What a path is called, is a name that a path can be joined with.
pub proof fn lemma_name_is_plain(p: Seq<char>)
    requires
        name_of(p) is Some,
    ensures
        plain_name(name_of(p).unwrap()),
{
    let start = body_start(p);
    lemma_settled(p, start);
    let q = settled(p, start);
    lemma_last_start(q, start);
    let c = last_start(q, start);
    assert forall|i: int| 0 <= i < q.skip(c).len() implies q.skip(c)[i] != '/' by {
        assert(q.skip(c)[i] == q[c + i]);
    }
}

proof fn lemma_settled(s: Seq<char>, start: int)
    requires
        0 <= start <= s.len(),
    ensures
        start <= settled(s, start).len() <= s.len(),
        settled(s, start) == s.take(settled(s, start).len() as int),
        settled(s, start).len() > start ==> !void_component(
            settled(s, start).skip(last_start(settled(s, start), start)),
        ),
    decreases s.len(),
{
    if start < s.len() && void_component(s.skip(last_start(s, start))) {
        lemma_last_start(s, start);
        let t = without_last(s, start);
        lemma_settled(t, start);
        assert(settled(s, start) =~= s.take(settled(s, start).len() as int));
    } else {
        assert(s.take(s.len() as int) =~= s);
    }
}

/// A path whose last component is replaced is called by the new name.
pub proof fn lemma_name_of_renamed(p: Seq<char>, name: Seq<char>)
    requires
        plain_name(name),
    ensures
        name_of(renamed(p, name)) == Some(name),
{
    if name_of(p) is Some {
        lemma_name_of_joined(parent_of(p), name);
    } else {
        lemma_name_of_joined(p, name);
    }
}

/// What stands between a directory and what lies below it, and what lies below it.
spec fn behind(b: Seq<char>, rel: Seq<char>) -> Seq<char> {
    if b.len() == 0 || b.last() == '/' {
        rel
    } else {
        seq!['/'] + rel
    }
}

proof fn lemma_first_end_is(s: Seq<char>, e: int)
    requires
        0 <= e <= s.len(),
        forall|i: int| 0 <= i < e ==> s[i] != '/',
        e < s.len() ==> s[e] == '/',
    ensures
        first_end(s) == e,
{
    lemma_first_end(s);
}

proof fn lemma_head_in_front(b: Seq<char>, rel: Seq<char>)
    requires
        b.len() > 0,
    ensures
        head(b + behind(b, rel)) == head(b),
        tail(b + behind(b, rel)) == tail(b) + behind(tail(b), rel),
{
    let x = behind(b, rel);
    let s = b + x;
    lemma_first_end(b);
    let e = first_end(b);
    if e == b.len() {
        assert(b.last() != '/');
        assert(s[e] == '/');
    } else {
        assert(s[e] == b[e]);
    }
    lemma_first_end_is(s, e);
    assert(head(s) =~= head(b));
    if e == b.len() {
        assert(tail(b) =~= Seq::<char>::empty());
        assert(tail(s) =~= rel);
        assert(tail(b) + behind(tail(b), rel) =~= rel);
    } else {
        let t = tail(b);
        if t.len() == 0 {
            assert(e == b.len() - 1);
            assert(b.last() == '/');
            assert(t + behind(t, rel) =~= rel);
            assert(tail(s) =~= rel);
        } else {
            assert(t.last() == b.last());
            assert(tail(s) =~= t + behind(t, rel));
        }
    }
}

proof fn lemma_begun_in_front(b: Seq<char>, rel: Seq<char>)
    ensures
        begun(b + behind(b, rel)) == if begun(b).len() > 0 {
            begun(b) + behind(begun(b), rel)
        } else {
            begun(rel)
        },
    decreases b.len(),
{
    let s = b + behind(b, rel);
    if b.len() == 0 {
        assert(s =~= rel);
    } else {
        lemma_head_in_front(b, rel);
        if void_component(head(b)) {
            lemma_first_end(b);
            lemma_begun_in_front(tail(b), rel);
        }
    }
}

proof fn lemma_left_over_in_front(b: Seq<char>, rel: Seq<char>)
    ensures
        left_over(b + behind(b, rel), b) == Some(begun(rel)),
    decreases b.len(),
{
    lemma_begun_in_front(b, rel);
    let b1 = begun(b);
    if b1.len() > 0 {
        lemma_begun(b);
        lemma_first_end(b1);
        lemma_head_in_front(b1, rel);
        lemma_left_over_in_front(tail(b1), rel);
    }
}

/// What was joined to a directory is found again as the path below it, as long as it has no root
/// and its first and last components count for something.
pub proof fn lemma_relative_of_joined(base: Seq<char>, rel: Seq<char>)
    requires
        !rooted(rel),
        begun(rel) == rel,
        settled(rel, 0) == rel,
    ensures
        relative_to(joined(base, rel), base) == Some(rel),
{
    let p = joined(base, rel);
    if base.len() == 0 {
        assert(p =~= rel);
        if dotted(rel) {
            lemma_first_end_is(rel, 1);
            assert(head(rel) =~= seq!['.']);
            lemma_begun(tail(rel));
            assert(false);
        }
    } else {
        let x = behind(base, rel);
        assert(p =~= base + x);
        assert(p[0] == base[0]);
        if base.len() > 1 {
            assert(p[1] == base[1]);
        } else if base[0] == '.' {
            assert(p[1] == '/');
        }
        let start = body_start(base);
        assert(body_start(p) == start);
        let b = base.skip(start);
        if b.len() > 0 {
            assert(b.last() == base.last());
            assert(p.skip(start) =~= b + behind(b, rel));
            lemma_left_over_in_front(b, rel);
        } else if base[0] == '/' {
            assert(p.skip(start) =~= b + behind(b, rel));
            lemma_left_over_in_front(b, rel);
        } else {
            let s = p.skip(start);
            assert(s =~= seq!['/'] + rel);
            lemma_first_end_is(s, 0);
            assert(head(s) =~= Seq::<char>::empty());
            assert(tail(s) =~= rel);
            assert(begun(s) == rel);
            assert(b =~= Seq::<char>::empty());
        }
    }
}

} // verus!
