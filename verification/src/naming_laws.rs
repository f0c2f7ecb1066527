//! What names, fingerprints and pages tell of files.
use vstd::prelude::*;
use vstd::utf8::encode_utf8;
use crate::book::BlockV;
use crate::convert;
use crate::formats;
use crate::ids;
use crate::ids::FileStat;
use crate::shape;
use crate::text;

verus! {

/// The last place of a character is where it stands and behind which it does not, if it is there.
pub proof fn last_indices_are_last(s: Seq<char>, c: char)
    ensures
        match ids::last_index(s, c) {
            Some(i) => 0 <= i < s.len() && s[i] == c && forall|j: int|
                i < j < s.len() ==> #[trigger] s[j] != c,
            None => !s.contains(c),
        },
    decreases s.len(),
{
    if s.len() > 0 && s.last() != c {
        let t = s.drop_last();
        last_indices_are_last(t, c);
        match ids::last_index(t, c) {
            Some(i) => {
                assert(t[i] == s[i]);
                assert forall|j: int| i < j < s.len() implies #[trigger] s[j] != c by {
                    if j < t.len() {
                        assert(t[j] == s[j]);
                    }
                }
            },
            None => {
                if s.contains(c) {
                    let j = choose|j: int| 0 <= j < s.len() && s[j] == c;
                    assert(t[j] == c);
                }
            },
        }
    }
}

/// A name with an extension has as its stem what stands before the last dot.
pub proof fn stems_end_before_the_last_dot(stem: Seq<char>, ext: Seq<char>)
    requires
        stem.len() > 0,
        !ext.contains('.'),
    ensures
        ids::stem_of(stem + seq!['.'] + ext) == stem,
{
    let s = stem + seq!['.'] + ext;
    last_indices_are_last(s, '.');
    let n = stem.len() as int;
    assert(s[n] == '.');
    assert(s.contains('.'));
    let i = ids::last_index(s, '.')->0;
    if i < n {
        assert(s[n] != '.');
    }
    if i > n {
        assert(s[i] == ext[i - n - 1]);
    }
    assert(s.take(n) =~= stem);
}

/// A name without a dot behind its first character is its own stem.
pub proof fn names_without_extension_are_their_own_stem(name: Seq<char>)
    requires
        forall|i: int| 0 < i < name.len() ==> #[trigger] name[i] != '.',
    ensures
        ids::stem_of(name) == name,
{
    last_indices_are_last(name, '.');
}

/// Fingerprints tell files apart: the same one comes from the same length and time only.
pub proof fn fingerprints_tell_files_apart(a: FileStat, b: FileStat)
    requires
        ids::fingerprint_of(Some(a)) == ids::fingerprint_of(Some(b)),
    ensures
        a.len == b.len,
        a.mtime == b.mtime,
{
    let x = text::decimal(a.len as nat);
    let y = text::decimal(b.len as nat);
    let u = text::decimal(a.mtime as nat);
    let v = text::decimal(b.mtime as nat);
    text::lemma_decimal_value(a.len as nat);
    text::lemma_decimal_value(b.len as nat);
    text::lemma_decimal_value(a.mtime as nat);
    text::lemma_decimal_value(b.mtime as nat);
    let f = x + seq![':'] + u;
    assert(f == y + seq![':'] + v);
    if x.len() < y.len() {
        assert(f[x.len() as int] == ':');
        assert(f[x.len() as int] == y[x.len() as int]);
        assert(text::is_digit(y[x.len() as int]));
    } else if y.len() < x.len() {
        assert(f[y.len() as int] == ':');
        assert(f[y.len() as int] == x[y.len() as int]);
        assert(text::is_digit(x[y.len() as int]));
    }
    assert(x =~= f.subrange(0, x.len() as int));
    assert(y =~= f.subrange(0, y.len() as int));
    assert(u =~= f.subrange(x.len() as int + 1, f.len() as int));
    assert(v =~= f.subrange(y.len() as int + 1, f.len() as int));
}

/// A file that can be examined never has the fingerprint of one that cannot.
pub proof fn fingerprints_are_never_missing(a: FileStat)
    ensures
        ids::fingerprint_of(Some(a)) != ids::fingerprint_of(None),
        ids::fingerprint_of(Some(a)).len() > 0,
{
    reveal_strlit("missing");
    let x = text::decimal(a.len as nat);
    text::lemma_decimal_value(a.len as nat);
    assert(ids::fingerprint_of(Some(a))[0] == x[0]);
    assert(text::is_digit(x[0]));
    assert("missing"@[0] == 'm');
}

/// Every part of a list of abilities is hashed, in order, each ended by a zero byte.
pub proof fn every_ability_is_hashed(parts: Seq<Seq<char>>)
    ensures
        shape::laid(
            parts.len() as int,
            |i: int| seq![encode_utf8(parts[i]), seq![0u8]],
            ids::caps_bytes(parts),
        ),
    decreases parts.len(),
{
    let part = |i: int| seq![encode_utf8(parts[i]), seq![0u8]];
    if parts.len() == 0 {
        shape::lemma_laid_none(part);
    } else {
        let less = parts.drop_last();
        let n = less.len() as int;
        every_ability_is_hashed(less);
        let part0 = |i: int| seq![encode_utf8(less[i]), seq![0u8]];
        assert forall|i: int| 0 <= i < n implies #[trigger] part0(i) == part(i) by {
            assert(less[i] == parts[i]);
        }
        shape::lemma_laid_step(n, part0, part, ids::caps_bytes(less));
        assert(ids::caps_bytes(parts) =~= ids::caps_bytes(less) + part(n));
    }
}

/// The file name of a path is what follows its last separator.
pub proof fn base_names_follow_the_last_separator(s: Seq<char>)
    ensures
        ({
            let b = formats::base_name(s);
            let n = s.len() - b.len();
            &&& n >= 0
            &&& b == s.subrange(n, s.len() as int)
            &&& forall|i: int| 0 <= i < b.len() ==> #[trigger] b[i] != '/' && b[i] != '\\'
            &&& n == 0 || s[n - 1] == '/' || s[n - 1] == '\\'
        }),
    decreases s.len(),
{
    if s.len() > 0 && !formats::is_sep(s.last()) {
        let t = s.drop_last();
        base_names_follow_the_last_separator(t);
        let b = formats::base_name(s);
        let n = s.len() - b.len();
        assert(b =~= s.subrange(n, s.len() as int));
    } else {
        assert(formats::base_name(s) =~= s.subrange(s.len() as int, s.len() as int));
    }
}

/// The characters on a page are those of its blocks together; blocks without a page count for page
/// zero.
pub proof fn pages_count_all_their_blocks(a: Seq<BlockV>, b: BlockV, page: u32)
    ensures
        convert::chars_on_page(Seq::empty(), page) == 0,
        convert::chars_on_page(a.push(b), page) == convert::chars_on_page(a, page) + (if b.page
            == Some(page) || (b.page is None && page == 0) {
            b.text.len()
        } else {
            0
        }),
{
    assert(a.push(b).drop_last() =~= a);
}

/// The pages from the first to the `n`th with fewer than 50 characters.
pub open spec fn thin_places(blocks: Seq<BlockV>, n: nat, at: Seq<int>) -> bool {
    shape::picked_at(
        n as int,
        |i: int| convert::chars_on_page(blocks, (i + 1) as u32) < 50,
        |i: int| i,
        at,
        at,
    )
}

/// A book looks scanned exactly where three pages in five or more are thin.
pub proof fn scanned_books_have_thin_pages(blocks: Seq<BlockV>, total: nat)
    requires
        0 < total <= u32::MAX,
    ensures
        exists|at: Seq<int>| #[trigger]
            thin_places(blocks, total, at) && (convert::scanned(blocks, total) <==> at.len() * 5
                >= total * 3),
{
    let at = lemma_thin(blocks, total);
}

proof fn lemma_thin(blocks: Seq<BlockV>, n: nat) -> (at: Seq<int>)
    requires
        n <= u32::MAX,
    ensures
        thin_places(blocks, n, at),
        at.len() == convert::thin_pages(blocks, n),
    decreases n,
{
    if n == 0 {
        Seq::empty()
    } else {
        let a = lemma_thin(blocks, (n - 1) as nat);
        let keep = |i: int|
            convert::chars_on_page(blocks, (i + 1) as u32) < 50;
        let m = n - 1;
        let at = if convert::chars_on_page(blocks, n as u32) < 50 {
            a.push(m)
        } else {
            a
        };
        assert((m + 1) as u32 == n as u32);
        assert forall|i: int| 0 <= i < n && #[trigger] keep(i) implies at.contains(i) by {
            if i < m {
                let k = choose|k: int| 0 <= k < a.len() && a[k] == i;
                assert(at[k] == i);
            } else {
                assert(at[a.len() as int] == i);
            }
        }
        assert forall|k: int| 0 <= k < at.len() implies 0 <= #[trigger] at[k] < n && keep(at[k]) by {
            if k < a.len() {
                assert(at[k] == a[k]);
            }
        }
        at
    }
}

} // verus!
