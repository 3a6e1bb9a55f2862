//! Text as a sequence of characters: numbers written out, pieces cut, joined and searched.

use vstd::prelude::*;
use vstd::string::*;

verus! {

/// `String::push` puts one character behind the text.
pub assume_specification[ std::string::String::push ](s: &mut String, c: char)
    ensures
        final(s)@ == old(s)@.push(c),
;

// ---------------------------------------------------------------------------
// Whole strings
// ---------------------------------------------------------------------------

/// The characters of `s`, in order.
pub fn chars_of(s: &str) -> (v: Vec<char>)
    ensures
        v@ == s@,
{
    let mut v: Vec<char> = Vec::new();
    for c in it: s.chars()
        invariant
            v@ == it.seq().take(it.index() as int),
            it.seq() == s@,
    {
        v.push(c);
    }
    v
}

/// The text made of `v[from..to]`.
pub fn text_between(v: &Vec<char>, from: usize, to: usize) -> (s: String)
    requires
        from <= to <= v@.len(),
    ensures
        s@ == v@.subrange(from as int, to as int),
{
    let mut s: String = String::new();
    let mut i: usize = from;
    while i < to
        invariant
            from <= i <= to <= v@.len(),
            s@ == v@.subrange(from as int, i as int),
        decreases to - i,
    {
        s.push(v[i]);
        proof {
            assert(v@.subrange(from as int, i as int).push(v@[i as int]) =~= v@.subrange(
                from as int,
                i + 1,
            ));
        }
        i = i + 1;
    }
    s
}

/// The text made of all of `v`.
pub fn text_of(v: &Vec<char>) -> (s: String)
    ensures
        s@ == v@,
{
    let s = text_between(v, 0, v.len());
    proof {
        assert(v@.subrange(0, v@.len() as int) =~= v@);
    }
    s
}

/// `a` followed by `b`.
pub fn cat(a: &str, b: &str) -> (s: String)
    ensures
        s@ == a@ + b@,
{
    let mut s: String = a.to_owned();
    s.append(b);
    s
}

/// `a`, `b` and `c` in a row.
pub fn cat3(a: &str, b: &str, c: &str) -> (s: String)
    ensures
        s@ == a@ + b@ + c@,
{
    let mut s: String = a.to_owned();
    s.append(b);
    s.append(c);
    s
}

/// `a`, `b`, `c` and `d` in a row.
pub fn cat4(a: &str, b: &str, c: &str, d: &str) -> (s: String)
    ensures
        s@ == a@ + b@ + c@ + d@,
{
    let mut s: String = a.to_owned();
    s.append(b);
    s.append(c);
    s.append(d);
    s
}

/// `a`, `b`, `c`, `d` and `e` in a row.
pub fn cat5(a: &str, b: &str, c: &str, d: &str, e: &str) -> (s: String)
    ensures
        s@ == a@ + b@ + c@ + d@ + e@,
{
    let mut s: String = cat4(a, b, c, d);
    s.append(e);
    s
}

/// A copy of an optional text.
pub fn copy_option(o: &Option<String>) -> (r: Option<String>)
    ensures
        r == *o,
{
    match o {
        Some(s) => Some(s.clone()),
        None => None,
    }
}

/// A copy of a list of texts.
pub fn copy_texts(v: &Vec<String>) -> (r: Vec<String>)
    ensures
        r@ == v@,
{
    let mut r: Vec<String> = Vec::new();
    let mut i: usize = 0;
    while i < v.len()
        invariant
            i <= v@.len(),
            r@ == v@.take(i as int),
        decreases v@.len() - i,
    {
        r.push(v[i].clone());
        proof {
            assert(v@.take(i as int).push(v@[i as int]) =~= v@.take(i + 1));
        }
        i = i + 1;
    }
    proof {
        assert(v@.take(v@.len() as int) =~= v@);
    }
    r
}

/// Whether two texts hold the same characters.
pub fn same_text(a: &str, b: &str) -> (r: bool)
    ensures
        r == (a@ == b@),
{
    let x = chars_of(a);
    let y = chars_of(b);
    if x.len() != y.len() {
        return false;
    }
    let mut i: usize = 0;
    while i < x.len()
        invariant
            i <= x@.len(),
            x@.len() == y@.len(),
            forall|j: int| 0 <= j < i ==> x@[j] == y@[j],
            x@ == a@,
            y@ == b@,
        decreases x@.len() - i,
    {
        if x[i] != y[i] {
            return false;
        }
        i = i + 1;
    }
    proof {
        assert(x@ =~= y@);
    }
    true
}

// ---------------------------------------------------------------------------
// Numbers
// ---------------------------------------------------------------------------

/// The character of one digit, `0` to `9`.
pub open spec fn digit_char(d: nat) -> char {
    ((48 + d) as u8) as char
}

/// `n` written in `base` (at most ten), most significant digit first, without leading zeros.
pub open spec fn radix_text(n: nat, base: nat) -> Seq<char>
    decreases n,
{
    if base < 2 || n < base {
        seq![digit_char(n)]
    } else {
        proof {
            assert(n / base < n) by (nonlinear_arith)
                requires
                    2 <= base <= n,
            ;
        }
        radix_text(n / base, base).push(digit_char(n % base))
    }
}

/// `n` written in base ten.
pub open spec fn decimal_text(n: nat) -> Seq<char> {
    radix_text(n, 10)
}

/// `n` written in base eight.
pub open spec fn octal_text(n: nat) -> Seq<char> {
    radix_text(n, 8)
}

/// `s` with `fill` put in front of it until it is `width` characters long.
pub open spec fn padded(s: Seq<char>, width: nat, fill: char) -> Seq<char> {
    if s.len() < width {
        Seq::new((width - s.len()) as nat, |i: int| fill) + s
    } else {
        s
    }
}

fn radix_chars(n: u64, base: u64) -> (v: Vec<char>)
    requires
        2 <= base <= 10,
    ensures
        v@ == radix_text(n as nat, base as nat),
    decreases n,
{
    if n < base {
        let mut v: Vec<char> = Vec::new();
        v.push((48u8 + n as u8) as char);
        proof {
            assert(v@ =~= radix_text(n as nat, base as nat));
        }
        v
    } else {
        proof {
            assert(n / base < n) by (nonlinear_arith)
                requires
                    2 <= base <= n,
            ;
        }
        let mut v = radix_chars(n / base, base);
        v.push((48u8 + (n % base) as u8) as char);
        v
    }
}

/// `n` in base ten, as `{}` prints it.
pub fn decimal(n: u64) -> (s: String)
    ensures
        s@ == decimal_text(n as nat),
{
    text_of(&radix_chars(n, 10))
}

/// `n` in base eight, as `{:o}` prints it.
pub fn octal(n: u32) -> (s: String)
    ensures
        s@ == octal_text(n as nat),
{
    text_of(&radix_chars(n as u64, 8))
}

/// `s` filled up in front to `width` characters.
pub fn pad(s: &str, width: usize, fill: char) -> (r: String)
    ensures
        r@ == padded(s@, width as nat, fill),
{
    let n: usize = s.unicode_len();
    let mut r: String = String::new();
    if n < width {
        let mut k: usize = 0;
        while k < width - n
            invariant
                n < width,
                k <= width - n,
                r@ == Seq::new(k as nat, |i: int| fill),
            decreases width - n - k,
        {
            r.push(fill);
            proof {
                assert(Seq::new(k as nat, |i: int| fill).push(fill) =~= Seq::new(
                    (k + 1) as nat,
                    |i: int| fill,
                ));
            }
            k = k + 1;
        }
    }
    r.append(s);
    proof {
        if n >= width {
            assert(r@ =~= s@);
        }
    }
    r
}

// ---------------------------------------------------------------------------
// White space
// ---------------------------------------------------------------------------

/// The characters with the Unicode property White_Space.
pub open spec fn is_space(c: char) -> bool {
    ||| '\u{9}' <= c <= '\u{d}'
    ||| c == ' '
    ||| c == '\u{85}'
    ||| c == '\u{a0}'
    ||| c == '\u{1680}'
    ||| '\u{2000}' <= c <= '\u{200a}'
    ||| c == '\u{2028}'
    ||| c == '\u{2029}'
    ||| c == '\u{202f}'
    ||| c == '\u{205f}'
    ||| c == '\u{3000}'
}

fn space(c: char) -> (r: bool)
    ensures
        r == is_space(c),
{
    ('\u{9}' <= c && c <= '\u{d}') || c == ' ' || c == '\u{85}' || c == '\u{a0}' || c == '\u{1680}'
        || ('\u{2000}' <= c && c <= '\u{200a}') || c == '\u{2028}' || c == '\u{2029}' || c
        == '\u{202f}' || c == '\u{205f}' || c == '\u{3000}'
}

/// `s` without the white space in front.
pub open spec fn trim_start(s: Seq<char>) -> Seq<char>
    decreases s.len(),
{
    if s.len() > 0 && is_space(s[0]) {
        trim_start(s.drop_first())
    } else {
        s
    }
}

/// `s` without the white space behind.
pub open spec fn trim_end(s: Seq<char>) -> Seq<char>
    decreases s.len(),
{
    if s.len() > 0 && is_space(s.last()) {
        trim_end(s.drop_last())
    } else {
        s
    }
}

/// `s` without the white space on either side.
pub open spec fn trimmed(s: Seq<char>) -> Seq<char> {
    trim_end(trim_start(s))
}

/// `s` without the white space on either side.
pub fn trim(s: &str) -> (r: String)
    ensures
        r@ == trimmed(s@),
{
    let v = chars_of(s);
    let mut a: usize = 0;
    proof {
        assert(v@.skip(0) =~= v@);
    }
    while a < v.len() && space(v[a])
        invariant
            a <= v@.len(),
            trim_start(v@) == trim_start(v@.skip(a as int)),
        decreases v@.len() - a,
    {
        proof {
            assert(v@.skip(a as int).drop_first() =~= v@.skip(a + 1));
        }
        a = a + 1;
    }
    let ghost front = v@.skip(a as int);
    proof {
        assert(trim_start(v@) == front);
        assert(front.take(front.len() as int) =~= front);
    }
    let mut b: usize = v.len();
    while b > a && space(v[b - 1])
        invariant
            a <= b <= v@.len(),
            front == v@.skip(a as int),
            trim_end(front) == trim_end(front.take(b - a)),
        decreases b,
    {
        proof {
            assert(front.take(b - a).drop_last() =~= front.take(b - a - 1));
            assert(front.take(b - a).last() == v@[b - 1]);
        }
        b = b - 1;
    }
    proof {
        assert(front.take(b - a) =~= v@.subrange(a as int, b as int));
        if b > a {
            assert(front.take(b - a).last() == v@[b - 1]);
        }
    }
    text_between(&v, a, b)
}

// ---------------------------------------------------------------------------
// Searching
// ---------------------------------------------------------------------------

/// The place of the first `c` in `v`, if there is one.
pub fn find_char(v: &Vec<char>, c: char) -> (r: Option<usize>)
    ensures
        match r {
            Some(i) => v@.index_of_first(c) == Some(i as int) && i < v@.len() && v@[i as int] == c,
            None => v@.index_of_first(c) is None,
        },
{
    proof {
        v@.index_of_first_ensures(c);
    }
    let mut i: usize = 0;
    while i < v.len()
        invariant
            i <= v@.len(),
            forall|j: int| 0 <= j < i ==> v@[j] != c,
        decreases v@.len() - i,
    {
        if v[i] == c {
            proof {
                v@.index_of_first_ensures(c);
                assert(v@.contains(c));
            }
            return Some(i);
        }
        i = i + 1;
    }
    None
}

/// Whether `s` ends with `c`.
pub open spec fn ends_with(s: Seq<char>, c: char) -> bool {
    s.len() > 0 && s.last() == c
}

/// Whether `s` ends with `c`.
pub fn ends_with_char(s: &str, c: char) -> (r: bool)
    ensures
        r == ends_with(s@, c),
{
    let n: usize = s.unicode_len();
    n > 0 && s.get_char(n - 1) == c
}

/// Whether `pattern` stands in `s` at the place `i`.
pub open spec fn stands_at(s: Seq<char>, pattern: Seq<char>, i: int) -> bool {
    0 <= i && i + pattern.len() <= s.len() && s.subrange(i, i + pattern.len()) == pattern
}

/// Whether `pattern` stands somewhere in `s`.
pub open spec fn has_text(s: Seq<char>, pattern: Seq<char>) -> bool {
    exists|i: int| stands_at(s, pattern, i)
}

/// Whether `pattern` stands somewhere in `s`.
pub fn contains_text(s: &str, pattern: &str) -> (r: bool)
    ensures
        r == has_text(s@, pattern@),
{
    let v = chars_of(s);
    let p = chars_of(pattern);
    if p.len() > v.len() {
        return false;
    }
    let mut i: usize = 0;
    while i <= v.len() - p.len()
        invariant
            p@.len() <= v@.len(),
            i <= v@.len() - p@.len() + 1,
            v@.len() <= usize::MAX,
            v@ == s@,
            p@ == pattern@,
            forall|k: int| 0 <= k < i ==> !stands_at(s@, pattern@, k),
        decreases v@.len() - p@.len() + 1 - i,
    {
        let mut j: usize = 0;
        while j < p.len() && v[i + j] == p[j]
            invariant
                j <= p@.len(),
                i + p@.len() <= v@.len() <= usize::MAX,
                forall|k: int| 0 <= k < j ==> v@[i + k] == p@[k],
            decreases p@.len() - j,
        {
            j = j + 1;
        }
        if j == p.len() {
            proof {
                assert(s@.subrange(i as int, i + p@.len()) =~= pattern@);
                assert(stands_at(s@, pattern@, i as int));
            }
            return true;
        }
        proof {
            if stands_at(s@, pattern@, i as int) {
                assert(s@.subrange(i as int, i + p@.len())[j as int] == p@[j as int]);
            }
        }
        if i == v.len() - p.len() {
            return false;
        }
        i = i + 1;
    }
    false
}

// ---------------------------------------------------------------------------
// Cutting and joining
// ---------------------------------------------------------------------------

/// The pieces of `s` between the occurrences of `c`; one more than there are occurrences.
pub open spec fn split_text(s: Seq<char>, c: char) -> Seq<Seq<char>>
    decreases s.len(),
{
    if s.len() == 0 {
        seq![s]
    } else {
        let front = split_text(s.drop_last(), c);
        if s.last() == c {
            front.push(Seq::empty())
        } else {
            front.update(front.len() - 1, front.last().push(s.last()))
        }
    }
}

/// The parts in a row, with `sep` between each two.
pub open spec fn join_text(parts: Seq<Seq<char>>, sep: Seq<char>) -> Seq<char>
    decreases parts.len(),
{
    if parts.len() == 0 {
        Seq::empty()
    } else if parts.len() == 1 {
        parts[0]
    } else {
        join_text(parts.drop_last(), sep) + sep + parts.last()
    }
}

/// The characters of each text.
pub open spec fn texts(v: Seq<String>) -> Seq<Seq<char>> {
    v.map_values(|s: String| s@)
}

/// The pieces of `s` between the occurrences of `c`, as `str::split` gives them.
pub fn split(s: &str, c: char) -> (r: Vec<String>)
    ensures
        texts(r@) == split_text(s@, c),
        r@.len() > 0,
{
    let v = chars_of(s);
    let mut done: Vec<String> = Vec::new();
    let mut piece: String = String::new();
    let mut i: usize = 0;
    proof {
        assert(piece@ =~= v@.take(0));
        assert(texts(done@).push(piece@) =~= split_text(v@.take(0), c));
    }
    while i < v.len()
        invariant
            i <= v@.len(),
            texts(done@).push(piece@) == split_text(v@.take(i as int), c),
        decreases v@.len() - i,
    {
        let ghost before = v@.take(i as int);
        let ghost front = texts(done@).push(piece@);
        proof {
            assert(v@.take(i + 1).drop_last() =~= before);
            assert(v@.take(i + 1).last() == v@[i as int]);
        }
        let x: char = v[i];
        if x == c {
            done.push(piece);
            piece = String::new();
            proof {
                assert(texts(done@) =~= front);
                assert(texts(done@).push(piece@) =~= front.push(Seq::empty()));
            }
        } else {
            piece.push(x);
            proof {
                assert(texts(done@).push(piece@) =~= front.update(
                    front.len() - 1,
                    front.last().push(x),
                ));
            }
        }
        i = i + 1;
    }
    proof {
        assert(v@.take(v@.len() as int) =~= s@);
    }
    let ghost front = texts(done@);
    let ghost last = piece@;
    done.push(piece);
    proof {
        assert(texts(done@) =~= front.push(last));
    }
    done
}

proof fn lemma_split_behind(a: Seq<char>, b: Seq<char>, c: char)
    requires
        !b.contains(c),
    ensures
        split_text(a.push(c) + b, c) == split_text(a, c).push(b),
    decreases b.len(),
{
    let s = a.push(c) + b;
    if b.len() == 0 {
        assert(s =~= a.push(c));
        assert(a.push(c).drop_last() =~= a);
        assert(b =~= Seq::empty());
    } else {
        assert(b.contains(b.last()));
        assert forall|x: char| b.drop_last().contains(x) implies b.contains(x) by {
            let i = choose|i: int| 0 <= i < b.drop_last().len() && b.drop_last()[i] == x;
            assert(b[i] == x);
        }
        lemma_split_behind(a, b.drop_last(), c);
        assert(s.drop_last() =~= a.push(c) + b.drop_last());
        let front = split_text(s.drop_last(), c);
        assert(b.drop_last().push(b.last()) =~= b);
        assert(split_text(s, c) =~= split_text(a, c).push(b));
    }
}

proof fn lemma_split_single(a: Seq<char>, c: char)
    requires
        !a.contains(c),
    ensures
        split_text(a, c) == seq![a],
    decreases a.len(),
{
    if a.len() > 0 {
        assert(a.contains(a.last()));
        assert forall|x: char| a.drop_last().contains(x) implies a.contains(x) by {
            let i = choose|i: int| 0 <= i < a.drop_last().len() && a.drop_last()[i] == x;
            assert(a[i] == x);
        }
        lemma_split_single(a.drop_last(), c);
        assert(a.drop_last().push(a.last()) =~= a);
        assert(split_text(a, c) =~= seq![a]);
    }
}

/// Parts that do not hold the separator are found again in their joined text.
pub proof fn lemma_split_undoes_join(parts: Seq<Seq<char>>, c: char)
    requires
        parts.len() > 0,
        forall|i: int| 0 <= i < parts.len() ==> !(#[trigger] parts[i]).contains(c),
    ensures
        split_text(join_text(parts, seq![c]), c) == parts,
    decreases parts.len(),
{
    if parts.len() == 1 {
        lemma_split_single(parts[0], c);
        assert(seq![parts[0]] =~= parts);
    } else {
        let front = parts.drop_last();
        lemma_split_undoes_join(front, c);
        lemma_split_behind(join_text(front, seq![c]), parts.last(), c);
        assert(join_text(front, seq![c]) + seq![c] + parts.last() =~= join_text(
            front,
            seq![c],
        ).push(c) + parts.last());
        assert(front.push(parts.last()) =~= parts);
    }
}

/// The parts in a row, with `sep` between each two.
pub fn join(parts: &Vec<String>, sep: &str) -> (r: String)
    ensures
        r@ == join_text(texts(parts@), sep@),
{
    let mut r: String = String::new();
    let mut i: usize = 0;
    while i < parts.len()
        invariant
            i <= parts@.len(),
            r@ == join_text(texts(parts@).take(i as int), sep@),
        decreases parts@.len() - i,
    {
        proof {
            assert(texts(parts@).take(i + 1).drop_last() =~= texts(parts@).take(i as int));
            assert(texts(parts@).take(i + 1).last() == parts@[i as int]@);
            assert(texts(parts@).take(i + 1)[0] == texts(parts@)[0]);
        }
        if i > 0 {
            r.append(sep);
        }
        r.append(parts[i].as_str());
        proof {
            if i == 0 {
                assert(r@ =~= parts@[0]@);
            }
        }
        i = i + 1;
    }
    proof {
        assert(texts(parts@).take(parts@.len() as int) =~= texts(parts@));
    }
    r
}

/// `s` with every `c` replaced by `with`.
pub open spec fn replaced(s: Seq<char>, c: char, with: Seq<char>) -> Seq<char>
    decreases s.len(),
{
    if s.len() == 0 {
        s
    } else {
        replaced(s.drop_last(), c, with) + (if s.last() == c {
            with
        } else {
            seq![s.last()]
        })
    }
}

/// `s` with every `c` replaced by `with`.
pub fn replace_char(s: &str, c: char, with: &str) -> (r: String)
    ensures
        r@ == replaced(s@, c, with@),
{
    let v = chars_of(s);
    let mut r: String = String::new();
    let mut i: usize = 0;
    while i < v.len()
        invariant
            i <= v@.len(),
            r@ == replaced(v@.take(i as int), c, with@),
        decreases v@.len() - i,
    {
        proof {
            assert(v@.take(i + 1).drop_last() =~= v@.take(i as int));
        }
        let ghost before = r@;
        if v[i] == c {
            r.append(with);
        } else {
            r.push(v[i]);
            proof {
                assert(r@ =~= before + seq![v@[i as int]]);
            }
        }
        i = i + 1;
    }
    proof {
        assert(v@.take(v@.len() as int) =~= s@);
    }
    r
}

/// `s` without the characters of `set` that stand behind.
pub open spec fn stripped_end(s: Seq<char>, set: Set<char>) -> Seq<char>
    decreases s.len(),
{
    if s.len() > 0 && set.contains(s.last()) {
        stripped_end(s.drop_last(), set)
    } else {
        s
    }
}

/// `s` without the `a` and `b` that stand behind.
pub fn strip_end(s: &str, a: char, b: char) -> (r: String)
    ensures
        r@ == stripped_end(s@, set![a, b]),
{
    let v = chars_of(s);
    let mut n: usize = v.len();
    proof {
        assert(v@.take(n as int) =~= v@);
    }
    while n > 0 && (v[n - 1] == a || v[n - 1] == b)
        invariant
            n <= v@.len(),
            stripped_end(v@, set![a, b]) == stripped_end(v@.take(n as int), set![a, b]),
        decreases n,
    {
        proof {
            assert(v@.take(n as int).drop_last() =~= v@.take(n - 1));
            assert(v@.take(n as int).last() == v@[n - 1]);
        }
        n = n - 1;
    }
    proof {
        if n > 0 {
            assert(v@.take(n as int).last() == v@[n - 1]);
        }
        assert(v@.take(n as int) =~= v@.subrange(0, n as int));
    }
    text_between(&v, 0, n)
}

/// The text `unit`, `n` times in a row.
pub open spec fn repeated(unit: Seq<char>, n: nat) -> Seq<char>
    decreases n,
{
    if n == 0 {
        Seq::empty()
    } else {
        repeated(unit, (n - 1) as nat) + unit
    }
}

/// The text `unit`, `n` times in a row.
pub fn repeat(unit: &str, n: usize) -> (r: String)
    ensures
        r@ == repeated(unit@, n as nat),
{
    let mut r: String = String::new();
    let mut k: usize = 0;
    while k < n
        invariant
            k <= n,
            r@ == repeated(unit@, k as nat),
        decreases n - k,
    {
        r.append(unit);
        k = k + 1;
    }
    r
}

// ---------------------------------------------------------------------------
// Laws
// ---------------------------------------------------------------------------

/// There is always a first part.
pub proof fn lemma_split_is_not_empty(s: Seq<char>, c: char)
    ensures
        split_text(s, c).len() >= 1,
    decreases s.len(),
{
    if s.len() > 0 {
        lemma_split_is_not_empty(s.drop_last(), c);
    }
}

proof fn lemma_trim_start(s: Seq<char>)
    ensures
        trim_start(s).len() <= s.len(),
        trim_start(s) == s.skip(s.len() - trim_start(s).len()),
        forall|i: int| 0 <= i < s.len() - trim_start(s).len() ==> is_space(#[trigger] s[i]),
        trim_start(s).len() > 0 ==> !is_space(trim_start(s)[0]),
    decreases s.len(),
{
    if s.len() > 0 && is_space(s[0]) {
        let t = s.drop_first();
        lemma_trim_start(t);
        assert(trim_start(s) =~= s.skip(s.len() - trim_start(s).len()));
        assert forall|i: int| 0 <= i < s.len() - trim_start(s).len() implies is_space(
            #[trigger] s[i],
        ) by {
            if i > 0 {
                assert(t[i - 1] == s[i]);
            }
        }
    } else {
        assert(s.skip(0) =~= s);
    }
}

proof fn lemma_trim_end(s: Seq<char>)
    ensures
        trim_end(s).len() <= s.len(),
        trim_end(s) == s.take(trim_end(s).len() as int),
        forall|i: int| trim_end(s).len() <= i < s.len() ==> is_space(#[trigger] s[i]),
        trim_end(s).len() > 0 ==> !is_space(trim_end(s).last()),
    decreases s.len(),
{
    if s.len() > 0 && is_space(s.last()) {
        let t = s.drop_last();
        lemma_trim_end(t);
        assert(trim_end(s) =~= s.take(trim_end(s).len() as int));
        assert forall|i: int| trim_end(s).len() <= i < s.len() implies is_space(
            #[trigger] s[i],
        ) by {
            if i < t.len() {
                assert(t[i] == s[i]);
            }
        }
    } else {
        assert(s.take(s.len() as int) =~= s);
    }
}

/// Trimming takes white space off the two ends, all of it, and nothing else; what was trimmed is not
/// changed by trimming it again.
pub proof fn lemma_trimmed(s: Seq<char>)
    ensures
        ({
            let t = trimmed(s);
            &&& t.len() <= s.len()
            &&& t.len() > 0 ==> !is_space(t[0]) && !is_space(t.last())
            &&& trimmed(t) == t
            &&& exists|a: int|
                #![trigger s.subrange(a, a + t.len())]
                0 <= a <= s.len() - t.len() && t == s.subrange(a, a + t.len()) && (forall|i: int|
                    0 <= i < s.len() && !(a <= i < a + t.len()) ==> is_space(#[trigger] s[i]))
        }),
{
    let u = trim_start(s);
    lemma_trim_start(s);
    lemma_trim_end(u);
    let t = trimmed(s);
    if t.len() > 0 {
        assert(t[0] == u[0]);
    }
    lemma_trim_start(t);
    lemma_trim_end(trim_start(t));
    assert(trim_start(t) =~= t);
    assert(trim_end(t) == t);
    let a = s.len() - u.len();
    assert(t =~= s.subrange(a, a + t.len()));
    assert forall|i: int| 0 <= i < s.len() && !(a <= i < a + t.len()) implies is_space(
        #[trigger] s[i],
    ) by {
        if i >= a {
            assert(u[i - a] == s[i]);
        }
    }
}

/// The number that digits stand for.
pub open spec fn digits_number(s: Seq<char>, base: nat) -> nat
    decreases s.len(),
{
    if s.len() == 0 {
        0
    } else {
        digits_number(s.drop_last(), base) * base + (s.last() as u32 - '0' as u32) as nat
    }
}

/// A number that is written out stands for itself, in digits of its base alone, and without zeros in
/// front.
pub proof fn lemma_number_is_written(n: nat, base: nat)
    requires
        2 <= base <= 10,
    ensures
        digits_number(radix_text(n, base), base) == n,
        radix_text(n, base).len() >= 1,
        forall|i: int|
            0 <= i < radix_text(n, base).len() ==> '0' <= #[trigger] radix_text(n, base)[i]
                && radix_text(n, base)[i] as u32 - '0' as u32 <= base - 1,
        radix_text(n, base)[0] == '0' ==> n == 0,
        n < base <==> radix_text(n, base).len() == 1,
    decreases n,
{
    let r = radix_text(n, base);
    if n < base {
        assert(r.drop_last() =~= Seq::<char>::empty());
        assert(digits_number(r.drop_last(), base) == 0);
        assert(0 * base == 0) by (nonlinear_arith);
    } else {
        assert(n / base < n) by (nonlinear_arith)
            requires
                2 <= base <= n,
        ;
        assert(n / base >= 1) by (nonlinear_arith)
            requires
                2 <= base <= n,
        ;
        assert(n == (n / base) * base + n % base) by (nonlinear_arith)
            requires
                base > 0,
        ;
        assert(n % base < base) by (nonlinear_arith)
            requires
                base > 0,
        ;
        lemma_number_is_written(n / base, base);
        assert(r.drop_last() =~= radix_text(n / base, base));
        assert forall|i: int| 0 <= i < r.len() implies '0' <= #[trigger] r[i] && r[i] as u32
            - '0' as u32 <= base - 1 by {
            if i < r.len() - 1 {
                assert(r[i] == radix_text(n / base, base)[i]);
            }
        }
        assert(r[0] == radix_text(n / base, base)[0]);
    }
}

/// The numbers that are shown are the numbers that were meant.
pub proof fn lemma_numbers_are_shown(n: u64, m: u32, d: String, o: String)
    requires
        call_ensures(decimal, (n,), d),
        call_ensures(octal, (m,), o),
    ensures
        digits_number(d@, 10) == n,
        digits_number(o@, 8) == m,
        d@[0] == '0' ==> n == 0,
{
    lemma_number_is_written(n as nat, 10);
    lemma_number_is_written(m as nat, 8);
}

/// Filling up keeps the text at the end and makes it as long as is asked for, but never shorter.
pub proof fn lemma_padded(s: &str, width: usize, fill: char, r: String)
    requires
        call_ensures(pad, (s, width, fill), r),
    ensures
        r@.len() == if s@.len() < width {
            width as nat
        } else {
            s@.len()
        },
        r@.skip(r@.len() - s@.len()) == s@,
        forall|i: int| 0 <= i < r@.len() - s@.len() ==> (#[trigger] r@[i]) == fill,
{
    assert(r@.skip(r@.len() - s@.len()) =~= s@);
}

/// What is searched for is found wherever it stands.
pub proof fn lemma_text_is_found(s: &str, pattern: &str, r: bool, a: Seq<char>, b: Seq<char>)
    requires
        call_ensures(contains_text, (s, pattern), r),
    ensures
        s@ == a + pattern@ + b ==> r,
        r ==> exists|x: Seq<char>, y: Seq<char>| s@ == #[trigger] (x + pattern@ + y),
{
    if s@ == a + pattern@ + b {
        assert(s@.subrange(a.len() as int, (a.len() + pattern@.len()) as int) =~= pattern@);
        assert(stands_at(s@, pattern@, a.len() as int));
    }
    if r {
        let i = choose|i: int| stands_at(s@, pattern@, i);
        let x = s@.take(i);
        let y = s@.skip((i + pattern@.len()) as int);
        assert(s@ =~= x + pattern@ + y);
    }
}

/// So many copies of a text, one behind the other.
pub proof fn lemma_repeated(unit: Seq<char>, n: nat)
    ensures
        repeated(unit, n).len() == n * unit.len(),
        unit.len() == 1 ==> forall|i: int|
            0 <= i < repeated(unit, n).len() ==> (#[trigger] repeated(unit, n)[i]) == unit[0],
    decreases n,
{
    if n > 0 {
        lemma_repeated(unit, (n - 1) as nat);
        assert(n * unit.len() == (n - 1) * unit.len() + unit.len()) by (nonlinear_arith)
            requires
                n > 0,
        ;
    } else {
        assert(0 * unit.len() == 0) by (nonlinear_arith);
    }
}

/// Zeros in front of a number do not change it.
pub proof fn lemma_zeros_in_front(s: Seq<char>, n: nat, base: nat)
    ensures
        digits_number(Seq::new(n, |i: int| '0') + s, base) == digits_number(s, base),
    decreases s.len(), n,
{
    let z = Seq::new(n, |i: int| '0');
    if s.len() > 0 {
        assert((z + s).drop_last() =~= z + s.drop_last());
        lemma_zeros_in_front(s.drop_last(), n, base);
    } else if n > 0 {
        assert(z + s =~= z);
        let y = Seq::new((n - 1) as nat, |i: int| '0');
        assert(z.drop_last() =~= y);
        assert(y + s =~= y);
        lemma_zeros_in_front(s, (n - 1) as nat, base);
        assert(0 * base == 0) by (nonlinear_arith);
    } else {
        assert(z + s =~= s);
    }
}

/// A number that is filled up with zeros is the same number, as wide as is asked for.
pub proof fn lemma_padded_number(s: Seq<char>, width: nat, base: nat)
    ensures
        padded(s, width, '0').len() >= width,
        digits_number(padded(s, width, '0'), base) == digits_number(s, base),
{
    if s.len() < width {
        let n = (width - s.len()) as nat;
        lemma_zeros_in_front(s, n, base);
        assert(padded(s, width, '0') =~= Seq::new(n, |i: int| '0') + s);
    }
}

} // verus!
