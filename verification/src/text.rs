//! Text as sequences of characters: the vocabulary every other module is stated in.
use vstd::prelude::*;

verus! {

/// Appending one character to a `String` (`String::push`): the character goes to the end.
pub assume_specification[ String::push ](s: &mut String, c: char)
    ensures
        final(s)@ == old(s)@.push(c),
;

/// The optional text held by an optional `String`.
pub open spec fn opt_text(o: Option<String>) -> Option<Seq<char>> {
    match o {
        Some(s) => Some(s@),
        None => None,
    }
}

/// The texts held by a list of `String`s.
pub open spec fn texts(v: Seq<String>) -> Seq<Seq<char>> {
    Seq::new(v.len(), |i: int| v[i]@)
}

pub proof fn lemma_texts_push(v: Seq<String>, s: String)
    ensures
        texts(v.push(s)) == texts(v).push(s@),
{
    assert(texts(v.push(s)) =~= texts(v).push(s@));
}

/// The characters of a string, as a vector.
pub fn chars_of(s: &str) -> (r: Vec<char>)
    ensures
        r@ == s@,
{
    let mut out: Vec<char> = Vec::new();
    for c in it: s.chars()
        invariant
            out@ == s@.take(it.index() as int),
            it.seq() == s@,
    {
        out.push(c);
        assert(out@ =~= s@.take(it.index() as int + 1));
    }
    assert(s@.take(s@.len() as int) =~= s@);
    out
}

/// The string with the given characters.
pub fn string_of(v: &[char]) -> (r: String)
    ensures
        r@ == v@,
{
    let mut out = String::new();
    for i in 0..v.len()
        invariant
            out@ == v@.take(i as int),
    {
        out.push(v[i]);
        assert(out@ =~= v@.take(i as int + 1));
    }
    assert(v@.take(v@.len() as int) =~= v@);
    out
}

/// Whether two character slices hold the same text.
pub fn same_chars(a: &[char], b: &[char]) -> (r: bool)
    ensures
        r == (a@ == b@),
{
    if a.len() != b.len() {
        return false;
    }
    for i in 0..a.len()
        invariant
            a.len() == b.len(),
            a@.take(i as int) == b@.take(i as int),
    {
        if a[i] != b[i] {
            return false;
        }
        assert(a@.take(i as int + 1) =~= a@.take(i as int).push(a@[i as int]));
        assert(b@.take(i as int + 1) =~= b@.take(i as int).push(b@[i as int]));
    }
    assert(a@.take(a@.len() as int) =~= a@);
    assert(b@.take(b@.len() as int) =~= b@);
    true
}

/// Whether two strings hold the same text.
pub fn same_text(a: &str, b: &str) -> (r: bool)
    ensures
        r == (a@ == b@),
{
    let x = chars_of(a);
    let y = chars_of(b);
    same_chars(&x, &y)
}

/// The characters with the Unicode property White_Space.
pub open spec fn is_white(c: char) -> bool {
    let n = c as u32;
    (9 <= n <= 13) || n == 0x20 || n == 0x85 || n == 0xa0 || n == 0x1680 || (0x2000 <= n <= 0x200a)
        || n == 0x2028 || n == 0x2029 || n == 0x202f || n == 0x205f || n == 0x3000
}

/// Whether `c` is whitespace.
pub fn white(c: char) -> (r: bool)
    ensures
        r == is_white(c),
{
    let n: u32 = c as u32;
    (9 <= n && n <= 13) || n == 0x20 || n == 0x85 || n == 0xa0 || n == 0x1680 || (0x2000 <= n && n
        <= 0x200a) || n == 0x2028 || n == 0x2029 || n == 0x202f || n == 0x205f || n == 0x3000
}

/// How many characters stand before the first one that satisfies `p` (all of them if none does).
pub open spec fn until(s: Seq<char>, p: spec_fn(char) -> bool) -> nat
    decreases s.len(),
{
    if s.len() == 0 || p(s[0]) {
        0
    } else {
        1 + until(s.skip(1), p)
    }
}

pub proof fn lemma_until(s: Seq<char>, p: spec_fn(char) -> bool, k: int)
    requires
        0 <= k <= s.len(),
        forall|j: int| 0 <= j < k ==> !p(#[trigger] s[j]),
        k == s.len() || p(s[k]),
    ensures
        until(s, p) == k,
    decreases s.len(),
{
    if k > 0 {
        assert(!p(s[0]));
        let t = s.skip(1);
        assert forall|j: int| 0 <= j < k - 1 implies !p(#[trigger] t[j]) by {
            assert(t[j] == s[j + 1]);
        }
        lemma_until(t, p, k - 1);
    }
}

pub proof fn lemma_until_bounds(s: Seq<char>, p: spec_fn(char) -> bool)
    ensures
        until(s, p) <= s.len(),
        forall|j: int| 0 <= j < until(s, p) ==> !p(#[trigger] s[j]),
        until(s, p) < s.len() ==> p(s[until(s, p) as int]),
    decreases s.len(),
{
    if s.len() > 0 && !p(s[0]) {
        let t = s.skip(1);
        lemma_until_bounds(t, p);
        assert forall|j: int| 0 <= j < until(s, p) implies !p(#[trigger] s[j]) by {
            if j > 0 {
                assert(s[j] == t[j - 1]);
            }
        }
    }
}

/// The text without its leading whitespace.
pub open spec fn ltrim(s: Seq<char>) -> Seq<char>
    decreases s.len(),
{
    if s.len() > 0 && is_white(s[0]) {
        ltrim(s.skip(1))
    } else {
        s
    }
}

/// The text without its trailing whitespace.
pub open spec fn rtrim(s: Seq<char>) -> Seq<char>
    decreases s.len(),
{
    if s.len() > 0 && is_white(s.last()) {
        rtrim(s.drop_last())
    } else {
        s
    }
}

/// The text without the whitespace around it.
pub open spec fn trim(s: Seq<char>) -> Seq<char> {
    rtrim(ltrim(s))
}

/// The text of `v` without the whitespace around it.
pub fn trim_chars(v: &[char]) -> (r: &[char])
    ensures
        r@ == trim(v@),
{
    let mut a: usize = 0;
    assert(v@.skip(0) =~= v@);
    while a < v.len() && white(v[a])
        invariant
            a <= v.len(),
            ltrim(v@.skip(a as int)) == ltrim(v@),
        decreases v.len() - a,
    {
        assert(v@.skip(a as int).skip(1) =~= v@.skip(a as int + 1));
        a = a + 1;
    }
    let ghost t = v@.skip(a as int);
    assert(ltrim(v@) == t);
    let mut b: usize = v.len();
    assert(t.take(b - a) =~= t);
    while b > a && white(v[b - 1])
        invariant
            a <= b <= v.len(),
            t == v@.skip(a as int),
            rtrim(t.take(b - a)) == rtrim(t),
        decreases b,
    {
        assert(t.take(b - a).drop_last() =~= t.take(b - 1 - a));
        b = b - 1;
    }
    assert(t.take(b - a) =~= v@.subrange(a as int, b as int));
    vstd::slice::slice_subrange(v, a, b)
}

/// The text of `s` without the whitespace around it.
pub fn trim_str(s: &str) -> (r: String)
    ensures
        r@ == trim(s@),
{
    let v = chars_of(s);
    string_of(trim_chars(&v))
}

/// The words of a text: its maximal runs of non-whitespace, in order.
pub open spec fn words(s: Seq<char>) -> Seq<Seq<char>>
    decreases s.len(),
    via words_decreases
{
    if s.len() == 0 {
        Seq::empty()
    } else if is_white(s[0]) {
        words(s.skip(1))
    } else {
        let n = until(s, |c: char| is_white(c)) as int;
        seq![s.take(n)] + words(s.skip(n))
    }
}

#[via_fn]
proof fn words_decreases(s: Seq<char>) {
    lemma_until_bounds(s, |c: char| is_white(c));
    if s.len() > 0 && !is_white(s[0]) {
        assert(until(s, |c: char| is_white(c)) > 0);
    }
}

/// The words of `v`.
pub fn words_of(v: &[char]) -> (r: Vec<String>)
    ensures
        texts(r@) == words(v@),
{
    let mut out: Vec<String> = Vec::new();
    let mut i: usize = 0;
    assert(v@.skip(0) =~= v@);
    assert(texts(out@) + words(v@) =~= words(v@));
    while i < v.len()
        invariant
            i <= v.len(),
            texts(out@) + words(v@.skip(i as int)) == words(v@),
        decreases v.len() - i,
    {
        let ghost rest = v@.skip(i as int);
        if white(v[i]) {
            assert(rest.skip(1) =~= v@.skip(i as int + 1));
            i = i + 1;
        } else {
            let start: usize = i;
            while i < v.len() && !white(v[i])
                invariant
                    start <= i <= v.len(),
                    forall|j: int| start <= j < i ==> !is_white(#[trigger] v@[j]),
                decreases v.len() - i,
            {
                i = i + 1;
            }
            let w = string_of(vstd::slice::slice_subrange(v, start, i));
            proof {
                let n = i - start;
                assert forall|j: int| 0 <= j < n implies !is_white(#[trigger] rest[j]) by {
                    assert(rest[j] == v@[start + j]);
                }
                lemma_until(rest, |c: char| is_white(c), n);
                assert(rest.take(n) =~= v@.subrange(start as int, i as int));
                assert(rest.skip(n) =~= v@.skip(i as int));
                lemma_texts_push(out@, w);
                assert(texts(out@) + words(rest) =~= texts(out@).push(w@) + words(
                    v@.skip(i as int),
                ));
            }
            out.push(w);
        }
    }
    assert(v@.skip(i as int).len() == 0);
    assert(texts(out@) + words(v@.skip(i as int)) =~= texts(out@));
    out
}

/// The parts one after another, with `sep` between neighbours.
pub open spec fn join(parts: Seq<Seq<char>>, sep: Seq<char>) -> Seq<char>
    decreases parts.len(),
{
    if parts.len() == 0 {
        Seq::empty()
    } else if parts.len() == 1 {
        parts[0]
    } else {
        join(parts.drop_last(), sep) + sep + parts.last()
    }
}

/// The parts one after another, with `sep` between neighbours.
pub fn join_strs(parts: &[String], sep: &str) -> (r: String)
    ensures
        r@ == join(texts(parts@), sep@),
{
    let mut out = String::new();
    for i in 0..parts.len()
        invariant
            out@ == join(texts(parts@).take(i as int), sep@),
    {
        proof {
            let t = texts(parts@).take(i as int + 1);
            assert(t.drop_last() =~= texts(parts@).take(i as int));
            assert(t.last() == parts@[i as int]@);
            if i == 0 {
                assert(Seq::<char>::empty() + t[0] =~= t[0]);
            }
        }
        if i > 0 {
            out.append(sep);
        }
        out.append(parts[i].as_str());
    }
    assert(texts(parts@).take(parts@.len() as int) =~= texts(parts@));
    out
}

/// The property of being the character `c`.
pub open spec fn is_char(c: char) -> spec_fn(char) -> bool {
    |x: char| x == c
}

/// The pieces of a text between the occurrences of the character `c` (always at least one piece).
pub open spec fn split(s: Seq<char>, c: char) -> Seq<Seq<char>>
    decreases s.len(),
{
    let k = until(s, is_char(c)) as int;
    if k >= s.len() {
        seq![s]
    } else {
        seq![s.take(k)] + split(s.skip(k + 1), c)
    }
}

/// The pieces of `v` between the occurrences of `c`.
pub fn split_of(v: &[char], c: char) -> (r: Vec<String>)
    ensures
        texts(r@) == split(v@, c),
{
    let mut out: Vec<String> = Vec::new();
    let mut start: usize = 0;
    let mut i: usize = 0;
    assert(v@.skip(0) =~= v@);
    assert(texts(out@) + split(v@, c) =~= split(v@, c));
    while i < v.len()
        invariant
            start <= i <= v.len(),
            forall|j: int| start <= j < i ==> #[trigger] v@[j] != c,
            texts(out@) + split(v@.skip(start as int), c) == split(v@, c),
        decreases v.len() - i,
    {
        if v[i] == c {
            let w = string_of(vstd::slice::slice_subrange(v, start, i));
            proof {
                let rest = v@.skip(start as int);
                let n = i - start;
                assert forall|j: int| 0 <= j < n implies #[trigger] rest[j] != c by {
                    assert(rest[j] == v@[start + j]);
                }
                lemma_until(rest, is_char(c), n);
                assert(rest.take(n) =~= v@.subrange(start as int, i as int));
                assert(rest.skip(n + 1) =~= v@.skip(i as int + 1));
                lemma_texts_push(out@, w);
                assert(texts(out@) + split(rest, c) =~= texts(out@).push(w@) + split(
                    v@.skip(i as int + 1),
                    c,
                ));
            }
            out.push(w);
            start = i + 1;
        }
        i = i + 1;
    }
    let w = string_of(vstd::slice::slice_subrange(v, start, i));
    proof {
        let rest = v@.skip(start as int);
        assert forall|j: int| 0 <= j < rest.len() implies #[trigger] rest[j] != c by {
            assert(rest[j] == v@[start + j]);
        }
        lemma_until(rest, is_char(c), rest.len() as int);
        assert(rest =~= v@.subrange(start as int, i as int));
        lemma_texts_push(out@, w);
    }
    out.push(w);
    out
}

/// `p` stands in `s` at position `i`.
pub open spec fn occurs_at(s: Seq<char>, p: Seq<char>, i: int) -> bool {
    0 <= i && i + p.len() <= s.len() && s.subrange(i, i + p.len()) == p
}

/// `p` stands somewhere in `s`.
pub open spec fn contains(s: Seq<char>, p: Seq<char>) -> bool {
    exists|i: int| occurs_at(s, p, i)
}

/// The first position at or after `from` at which `p` stands in `s`.
pub open spec fn find_from(s: Seq<char>, p: Seq<char>, from: int) -> Option<int>
    decreases s.len() + 1 - from,
{
    if from < 0 || from + p.len() > s.len() {
        None
    } else if occurs_at(s, p, from) {
        Some(from)
    } else {
        find_from(s, p, from + 1)
    }
}

/// The first position at which `p` stands in `s`.
pub open spec fn find(s: Seq<char>, p: Seq<char>) -> Option<int> {
    find_from(s, p, 0)
}

pub proof fn lemma_find_from(s: Seq<char>, p: Seq<char>, from: int)
    requires
        from >= 0,
    ensures
        match find_from(s, p, from) {
            Some(i) => from <= i && occurs_at(s, p, i) && forall|j: int|
                from <= j < i ==> !#[trigger] occurs_at(s, p, j),
            None => forall|j: int| from <= j ==> !#[trigger] occurs_at(s, p, j),
        },
    decreases s.len() + 1 - from,
{
    if from + p.len() <= s.len() && !occurs_at(s, p, from) {
        lemma_find_from(s, p, from + 1);
    }
}

/// `s` contains `p` exactly when searching for it from the start finds it.
pub proof fn lemma_find_contains(s: Seq<char>, p: Seq<char>)
    ensures
        contains(s, p) <==> find(s, p) is Some,
{
    lemma_find_from(s, p, 0);
}

/// Whether `p` stands in `v` at position `i`.
pub fn at(v: &[char], p: &[char], i: usize) -> (r: bool)
    ensures
        r == occurs_at(v@, p@, i as int),
{
    if p.len() > v.len() || i > v.len() - p.len() {
        return false;
    }
    same_chars(vstd::slice::slice_subrange(v, i, i + p.len()), p)
}

/// The first position at or after `from` at which `p` stands in `v`.
pub fn find_chars_from(v: &[char], p: &[char], from: usize) -> (r: Option<usize>)
    ensures
        match r {
            Some(i) => find_from(v@, p@, from as int) == Some(i as int),
            None => find_from(v@, p@, from as int) is None,
        },
        r matches Some(i) ==> from <= i && i + p@.len() <= v@.len(),
{
    if p.len() > v.len() {
        return None;
    }
    let last: usize = v.len() - p.len();
    let mut i: usize = from;
    while i <= last
        invariant
            from <= i,
            last + p@.len() == v@.len(),
            i <= last + 1 || i == from,
            last + 1 <= usize::MAX || i <= last,
            find_from(v@, p@, i as int) == find_from(v@, p@, from as int),
        decreases last + 1 - i,
    {
        if at(v, p, i) {
            return Some(i);
        }
        if i == last {
            assert(find_from(v@, p@, i as int + 1) is None);
            return None;
        }
        i = i + 1;
    }
    None
}

/// Whether `p` stands somewhere in `v`.
pub fn has(v: &[char], p: &[char]) -> (r: bool)
    ensures
        r == contains(v@, p@),
{
    proof {
        lemma_find_contains(v@, p@);
    }
    find_chars_from(v, p, 0).is_some()
}

pub open spec fn starts(s: Seq<char>, p: Seq<char>) -> bool {
    p.len() <= s.len() && s.take(p.len() as int) == p
}

pub open spec fn ends(s: Seq<char>, p: Seq<char>) -> bool {
    p.len() <= s.len() && s.skip(s.len() - p.len()) == p
}

/// Whether `v` begins with `p`.
pub fn starts_with(v: &[char], p: &[char]) -> (r: bool)
    ensures
        r == starts(v@, p@),
{
    if p.len() > v.len() {
        return false;
    }
    assert(v@.take(p@.len() as int) =~= v@.subrange(0, p@.len() as int));
    same_chars(vstd::slice::slice_subrange(v, 0, p.len()), p)
}

/// Whether `v` ends with `p`.
pub fn ends_with(v: &[char], p: &[char]) -> (r: bool)
    ensures
        r == ends(v@, p@),
{
    if p.len() > v.len() {
        return false;
    }
    assert(v@.skip(v@.len() - p@.len()) =~= v@.subrange(v@.len() - p@.len(), v@.len() as int));
    same_chars(vstd::slice::slice_subrange(v, v.len() - p.len(), v.len()), p)
}

/// The lines of a text: the pieces between line feeds, without the carriage return that may stand
/// before one; a final line feed opens no further line.
pub open spec fn lines(s: Seq<char>) -> Seq<Seq<char>>
    decreases s.len(),
{
    if s.len() == 0 {
        Seq::empty()
    } else {
        let k = until(s, is_char('\n')) as int;
        if k >= s.len() {
            seq![s]
        } else {
            seq![strip_cr(s.take(k))] + lines(s.skip(k + 1))
        }
    }
}

/// The text without one carriage return at its end.
pub open spec fn strip_cr(s: Seq<char>) -> Seq<char> {
    if s.len() > 0 && s.last() == '\r' {
        s.drop_last()
    } else {
        s
    }
}

/// The lines of `v`.
pub fn lines_of(v: &[char]) -> (r: Vec<String>)
    ensures
        texts(r@) == lines(v@),
{
    let mut out: Vec<String> = Vec::new();
    let mut start: usize = 0;
    let mut i: usize = 0;
    assert(v@.skip(0) =~= v@);
    assert(texts(out@) + lines(v@) =~= lines(v@));
    while i < v.len()
        invariant
            start <= i <= v.len(),
            forall|j: int| start <= j < i ==> #[trigger] v@[j] != '\n',
            texts(out@) + lines(v@.skip(start as int)) == lines(v@),
        decreases v.len() - i,
    {
        if v[i] == '\n' {
            let mut end: usize = i;
            if end > start && v[end - 1] == '\r' {
                end = end - 1;
            }
            let w = string_of(vstd::slice::slice_subrange(v, start, end));
            proof {
                let rest = v@.skip(start as int);
                let n = i - start;
                assert forall|j: int| 0 <= j < n implies #[trigger] rest[j] != '\n' by {
                    assert(rest[j] == v@[start + j]);
                }
                lemma_until(rest, is_char('\n'), n);
                assert(strip_cr(rest.take(n)) =~= v@.subrange(start as int, end as int));
                assert(rest.skip(n + 1) =~= v@.skip(i as int + 1));
                lemma_texts_push(out@, w);
                assert(texts(out@) + lines(rest) =~= texts(out@).push(w@) + lines(
                    v@.skip(i as int + 1),
                ));
            }
            out.push(w);
            start = i + 1;
        }
        i = i + 1;
    }
    proof {
        let rest = v@.skip(start as int);
        assert forall|j: int| 0 <= j < rest.len() implies #[trigger] rest[j] != '\n' by {
            assert(rest[j] == v@[start + j]);
        }
        lemma_until(rest, is_char('\n'), rest.len() as int);
        assert(rest =~= v@.subrange(start as int, i as int));
    }
    if start < i {
        let w = string_of(vstd::slice::slice_subrange(v, start, i));
        proof {
            lemma_texts_push(out@, w);
        }
        out.push(w);
    } else {
        assert(texts(out@) + lines(v@.skip(start as int)) =~= texts(out@));
    }
    out
}

/// The text with every occurrence of `from` (read left to right, without overlap) replaced by `to`.
pub open spec fn replaced(s: Seq<char>, from: Seq<char>, to: Seq<char>) -> Seq<char>
    decreases s.len(),
{
    if s.len() == 0 || from.len() == 0 {
        s
    } else if starts(s, from) {
        to + replaced(s.skip(from.len() as int), from, to)
    } else {
        seq![s[0]] + replaced(s.skip(1), from, to)
    }
}

/// `v` with every occurrence of the non-empty `from` replaced by `to`.
pub fn replace_chars(v: &[char], from: &[char], to: &[char]) -> (r: Vec<char>)
    requires
        from@.len() > 0,
    ensures
        r@ == replaced(v@, from@, to@),
{
    let mut out: Vec<char> = Vec::new();
    let mut i: usize = 0;
    assert(v@.skip(0) =~= v@);
    assert(out@ + replaced(v@, from@, to@) =~= replaced(v@, from@, to@));
    while i < v.len()
        invariant
            i <= v.len(),
            from@.len() > 0,
            out@ + replaced(v@.skip(i as int), from@, to@) == replaced(v@, from@, to@),
        decreases v.len() - i,
    {
        let ghost rest = v@.skip(i as int);
        let ghost before = out@;
        if at(v, from, i) {
            assert(rest.take(from@.len() as int) =~= v@.subrange(i as int, i + from@.len()));
            push_chars(&mut out, to);
            assert(rest.skip(from@.len() as int) =~= v@.skip(i + from@.len()));
            assert(before + replaced(rest, from@, to@) =~= out@ + replaced(
                v@.skip(i + from@.len()),
                from@,
                to@,
            ));
            i = i + from.len();
        } else {
            proof {
                if starts(rest, from@) {
                    assert(rest.take(from@.len() as int) =~= v@.subrange(i as int, i + from@.len()));
                }
            }
            out.push(v[i]);
            assert(rest.skip(1) =~= v@.skip(i as int + 1));
            assert(before + replaced(rest, from@, to@) =~= out@ + replaced(
                v@.skip(i as int + 1),
                from@,
                to@,
            ));
            i = i + 1;
        }
    }
    assert(out@ + replaced(v@.skip(i as int), from@, to@) =~= out@);
    out
}

/// Appends the characters of `more`.
pub fn push_chars(out: &mut Vec<char>, more: &[char])
    ensures
        final(out)@ == old(out)@ + more@,
{
    let ghost before = out@;
    for i in 0..more.len()
        invariant
            out@ == before + more@.take(i as int),
    {
        out.push(more[i]);
        assert(out@ =~= before + more@.take(i as int + 1));
    }
    assert(more@.take(more@.len() as int) =~= more@);
}

/// The digit character of a number below sixteen.
pub open spec fn digit(d: int) -> char {
    if d < 10 {
        (48 + d) as char
    } else {
        (87 + d) as char
    }
}

/// The digit character of a number below sixteen.
pub fn digit_char(d: u8) -> (r: char)
    requires
        d < 16,
    ensures
        r == digit(d as int),
{
    if d < 10 {
        (48 + d) as char
    } else {
        (87 + d) as char
    }
}

/// The digits of `n` to the given base, most significant first, without leading zeros.
pub open spec fn numeral(n: nat, base: nat) -> Seq<char>
    decreases n,
{
    if n < base || base < 2 {
        seq![digit(n as int)]
    } else {
        proof {
            assert(n / base < n) by (nonlinear_arith)
                requires
                    n >= base,
                    base >= 2,
            ;
        }
        numeral(n / base, base).push(digit((n % base) as int))
    }
}

/// The decimal numeral of `n`.
pub open spec fn decimal(n: nat) -> Seq<char> {
    numeral(n, 10)
}

fn numeral_chars(n: u64, base: u64) -> (r: Vec<char>)
    requires
        2 <= base <= 16,
    ensures
        r@ == numeral(n as nat, base as nat),
    decreases n,
{
    if n < base {
        let mut out: Vec<char> = Vec::new();
        out.push(digit_char(n as u8));
        assert(out@ =~= seq![digit(n as int)]);
        out
    } else {
        assert(n / base < n) by (nonlinear_arith)
            requires
                n >= base,
                base >= 2,
        ;
        let mut out = numeral_chars(n / base, base);
        assert(n % base < base) by (nonlinear_arith)
            requires
                base >= 2,
        ;
        out.push(digit_char((n % base) as u8));
        out
    }
}

/// The decimal numeral of `n`.
pub fn decimal_of(n: u64) -> (r: String)
    ensures
        r@ == decimal(n as nat),
{
    string_of(&numeral_chars(n, 10))
}

/// The hexadecimal numeral of `n`, in lower case.
pub fn hex_of(n: u64) -> (r: String)
    ensures
        r@ == numeral(n as nat, 16),
{
    string_of(&numeral_chars(n, 16))
}

/// The sixteen hexadecimal digits of a 64-bit number, most significant first.
pub open spec fn hex16(n: u64) -> Seq<char> {
    pad_zero(numeral(n as nat, 16), 16)
}

/// The text with zeros in front up to the given length.
pub open spec fn pad_zero(s: Seq<char>, n: nat) -> Seq<char>
    decreases n - s.len(),
{
    if s.len() >= n {
        s
    } else {
        pad_zero(seq!['0'] + s, n)
    }
}

fn pad_zero_chars(v: Vec<char>, n: usize) -> (r: Vec<char>)
    ensures
        r@ == pad_zero(v@, n as nat),
    decreases n - v@.len(),
{
    if v.len() >= n {
        v
    } else {
        let mut w: Vec<char> = Vec::new();
        w.push('0');
        push_chars(&mut w, &v);
        assert(w@ =~= seq!['0'] + v@);
        pad_zero_chars(w, n)
    }
}

/// The sixteen hexadecimal digits of `n`.
pub fn hex16_of(n: u64) -> (r: String)
    ensures
        r@ == hex16(n),
{
    string_of(&pad_zero_chars(numeral_chars(n, 16), 16))
}

/// The ASCII lower case of a character; other characters are their own.
pub open spec fn lower_ascii(c: char) -> char {
    if 'A' <= c <= 'Z' {
        ((c as u32) + 32) as char
    } else {
        c
    }
}

pub open spec fn lower_ascii_all(s: Seq<char>) -> Seq<char> {
    s.map_values(|c: char| lower_ascii(c))
}

/// The ASCII lower case of `c`.
pub fn lower_ascii_char(c: char) -> (r: char)
    ensures
        r == lower_ascii(c),
{
    if 'A' <= c && c <= 'Z' {
        ((c as u8) + 32) as char
    } else {
        c
    }
}

/// `v` with its ASCII letters in lower case.
pub fn lower_ascii_chars(v: &[char]) -> (r: Vec<char>)
    ensures
        r@ == lower_ascii_all(v@),
{
    let mut out: Vec<char> = Vec::new();
    for i in 0..v.len()
        invariant
            out@ == lower_ascii_all(v@.take(i as int)),
    {
        out.push(lower_ascii_char(v[i]));
        assert(out@ =~= lower_ascii_all(v@.take(i as int + 1)));
    }
    assert(v@.take(v@.len() as int) =~= v@);
    out
}

/// A decimal digit.
pub open spec fn is_digit(c: char) -> bool {
    '0' <= c <= '9'
}

/// Every character is a decimal digit.
pub open spec fn all_digits(s: Seq<char>) -> bool {
    forall|i: int| 0 <= i < s.len() ==> is_digit(#[trigger] s[i])
}

/// The value of some decimal digits.
pub open spec fn digits_value(s: Seq<char>) -> nat
    decreases s.len(),
{
    if s.len() == 0 {
        0
    } else {
        digits_value(s.drop_last()) * 10 + ((s.last() as int - '0' as int) as nat)
    }
}

/// The number a text is: decimal digits, with or without a plus sign before them.
pub open spec fn number_of(s: Seq<char>) -> Option<nat> {
    let d = if s.len() > 1 && s[0] == '+' {
        s.skip(1)
    } else {
        s
    };
    if d.len() > 0 && all_digits(d) {
        Some(digits_value(d))
    } else {
        None
    }
}

pub proof fn lemma_digits_value_mono(s: Seq<char>, i: int)
    requires
        0 <= i <= s.len(),
        all_digits(s),
    ensures
        digits_value(s.take(i)) <= digits_value(s),
    decreases s.len() - i,
{
    if i < s.len() {
        lemma_digits_value_mono(s, i + 1);
        assert(s.take(i + 1).drop_last() =~= s.take(i));
        assert(is_digit(s[i]));
    } else {
        assert(s.take(i) =~= s);
    }
}

/// The number a text is, if it is one and at most `max`.
pub fn parse_number(v: &[char], max: u64) -> (r: Option<u64>)
    ensures
        match number_of(v@) {
            Some(n) => if n <= max {
                r is Some && r->0 == n
            } else {
                r is None
            },
            None => r is None,
        },
{
    let mut start: usize = 0;
    if v.len() > 1 && v[0] == '+' {
        start = 1;
    }
    let ghost d = if v@.len() > 1 && v@[0] == '+' {
        v@.skip(1)
    } else {
        v@
    };
    assert(d =~= v@.skip(start as int));
    if start >= v.len() {
        return None;
    }
    for i in start..v.len()
        invariant
            start <= v@.len(),
            d == v@.skip(start as int),
            forall|j: int| 0 <= j < i - start ==> is_digit(#[trigger] d[j]),
            number_of(v@) == (if d.len() > 0 && all_digits(d) {
                Some(digits_value(d))
            } else {
                None
            }),
    {
        assert(d[i - start] == v@[i as int]);
        if !('0' <= v[i] && v[i] <= '9') {
            return None;
        }
    }
    let mut acc: u128 = 0;
    assert(d.take(0) =~= Seq::empty());
    for i in start..v.len()
        invariant
            start <= v@.len(),
            d == v@.skip(start as int),
            all_digits(d),
            d.len() > 0,
            number_of(v@) == Some(digits_value(d)),
            acc <= max,
            acc == digits_value(d.take(i - start)),
    {
        proof {
            assert(d[i - start] == v@[i as int]);
            assert(is_digit(d[i - start]));
            assert(d.take(i - start + 1).drop_last() =~= d.take(i - start));
            lemma_digits_value_mono(d, i - start + 1);
        }
        let c: char = v[i];
        let x: u128 = digit_value(c) as u128;
        acc = acc * 10 + x;
        if acc > max as u128 {
            return None;
        }
    }
    assert(d.take(d.len() as int) =~= d);
    Some(acc as u64)
}

/// The value of a decimal digit.
pub fn digit_value(c: char) -> (r: u8)
    requires
        is_digit(c),
    ensures
        r == c as int - '0' as int,
        r <= 9,
{
    (c as u8) - 48
}

/// Bytes read one character each.
pub open spec fn latin(s: Seq<u8>) -> Seq<char> {
    s.map_values(|b: u8| b as char)
}

/// Bytes read one character each.
pub fn latin_chars(v: &[u8]) -> (r: Vec<char>)
    ensures
        r@ == latin(v@),
{
    let mut out: Vec<char> = Vec::new();
    for i in 0..v.len()
        invariant
            out@ == latin(v@.take(i as int)),
    {
        out.push(v[i] as char);
        assert(out@ =~= latin(v@.take(i as int + 1)));
    }
    assert(v@.take(v@.len() as int) =~= v@);
    out
}

/// The last place up to `n` where a pattern occurs.
pub open spec fn find_last_to(s: Seq<char>, p: Seq<char>, n: int) -> Option<int>
    decreases n + 1,
{
    if n < 0 {
        None
    } else if occurs_at(s, p, n) {
        Some(n)
    } else {
        find_last_to(s, p, n - 1)
    }
}

/// The last place where a pattern occurs.
pub open spec fn find_last(s: Seq<char>, p: Seq<char>) -> Option<int> {
    find_last_to(s, p, s.len() as int)
}

/// The last place where a pattern occurs.
pub fn find_last_chars(v: &[char], p: &[char]) -> (r: Option<usize>)
    ensures
        match r {
            Some(i) => find_last(v@, p@) == Some(i as int) && i + p@.len() <= v@.len(),
            None => find_last(v@, p@) is None,
        },
{
    let mut i: usize = v.len();
    loop
        invariant
            i <= v@.len(),
            find_last_to(v@, p@, i as int) == find_last(v@, p@),
        decreases i,
    {
        if at(v, p, i) {
            return Some(i);
        }
        if i == 0 {
            assert(find_last_to(v@, p@, -1) is None);
            return None;
        }
        i = i - 1;
    }
}

/// The decimal digits of an integer, with a sign before a negative one.
pub open spec fn signed_decimal(n: int) -> Seq<char> {
    if n < 0 {
        "-"@ + decimal((-n) as nat)
    } else {
        decimal(n as nat)
    }
}

/// The decimal digits of an integer, with a sign before a negative one.
pub fn signed_decimal_of(n: i64) -> (r: String)
    ensures
        r@ == signed_decimal(n as int),
{
    if n < 0 {
        let mut s = "-".to_owned();
        s.append(decimal_of((-(n as i128)) as u64).as_str());
        s
    } else {
        decimal_of(n as u64)
    }
}

/// A text without the whitespace at its end.
pub fn trim_right(v: &[char]) -> (r: &[char])
    ensures
        r@ == rtrim(v@),
{
    let mut n: usize = v.len();
    assert(v@.take(n as int) =~= v@);
    while n > 0 && white(v[n - 1])
        invariant
            n <= v@.len(),
            rtrim(v@.take(n as int)) == rtrim(v@),
        decreases n,
    {
        assert(v@.take(n as int).drop_last() =~= v@.take(n - 1));
        n = n - 1;
    }
    let r = vstd::slice::slice_subrange(v, 0, n);
    assert(r@ =~= v@.take(n as int));
    r
}

/// A decimal numeral has the value of its number, so different numbers have different numerals.
pub proof fn lemma_decimal_value(n: nat)
    ensures
        digits_value(decimal(n)) == n,
        decimal(n).len() > 0,
        all_digits(decimal(n)),
    decreases n,
{
    if n < 10 {
        let s = decimal(n);
        assert(s.drop_last() =~= Seq::empty());
        assert(s.last() as int - '0' as int == n);
        reveal_with_fuel(digits_value, 2);
    } else {
        let s = decimal(n);
        lemma_decimal_value(n / 10);
        assert(s == decimal(n / 10).push(digit((n % 10) as int)));
        assert(s.drop_last() =~= decimal(n / 10));
        assert(s.last() as int - '0' as int == n % 10);
    }
}

} // verus!
