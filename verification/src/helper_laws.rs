//! What lines of the helper, archives and encodings tell.
use vstd::prelude::*;
use vstd::utf8::encode_utf8;
use crate::artifacts;
use crate::citecheck;
use crate::decode;
use crate::ebook;
use crate::fast;
use crate::fast::ProgressV;
use crate::ids;
use crate::markup;
use crate::rows;
use crate::text;
use crate::text_laws;

verus! {

/// A text with nothing but whitespace-free ends is its own trimmed form.
proof fn lemma_trimmed(s: Seq<char>)
    requires
        s.len() > 0,
        !text::is_white(s[0]),
        !text::is_white(s.last()),
    ensures
        text::trim(s) == s,
{
}

proof fn lemma_trim_front_space(s: Seq<char>)
    requires
        s.len() > 0,
        !text::is_white(s[0]),
        !text::is_white(s.last()),
    ensures
        text::trim(seq![' '] + s) == s,
{
    let t = seq![' '] + s;
    assert(t.skip(1) =~= s);
    assert(text::ltrim(t) == text::ltrim(s));
}

/// What a numbered line tells is what stands behind its number.
pub proof fn numbered_lines_tell_what_follows(num: Seq<char>, rest: Seq<char>)
    requires
        !num.contains(']'),
        rest.len() > 0,
        !text::is_white(rest[0]),
        !text::is_white(rest.last()),
    ensures
        fast::after_number("["@ + num + "] "@ + rest) == Some(rest),
{
    reveal_strlit("[");
    reveal_strlit("] ");
    reveal_strlit("]");
    let line = "["@ + num + "] "@ + rest;
    assert(line[0] == '[');
    assert(line.last() == rest.last());
    lemma_trimmed(line);
    let t = line.skip(1);
    let n = num.len() as int;
    assert(t =~= num + "] "@ + rest);
    assert(t.subrange(n, n + 1) =~= "]"@);
    assert(text::occurs_at(t, "]"@, n));
    text::lemma_find_from(t, "]"@, 0);
    let i = text::find(t, "]"@)->0;
    if i < n {
        assert(t.subrange(i, i + 1)[0] == num[i]);
        assert("]"@[0] == ']');
    }
    assert(t.skip(n + 1) =~= seq![' '] + rest);
    lemma_trim_front_space(rest);
}

/// A line that tells of a book gives its title and the number behind its last colon.
pub proof fn book_lines_give_title_and_count(
    num: Seq<char>,
    title: Seq<char>,
    n: nat,
    tail: Seq<char>,
)
    requires
        !num.contains(']'),
        title.len() > 0,
        !text::is_white(title[0]),
        !text::starts(title + ": "@ + text::decimal(n) + tail, "skip"@),
        n <= usize::MAX,
        tail.len() > 0,
        tail[0] == ' ',
        !text::is_white(tail.last()),
        !text::contains(text::decimal(n) + tail, ": "@),
    ensures
        fast::progress_of("["@ + num + "] "@ + (title + ": "@ + text::decimal(n) + tail))
            == (ProgressV::Book { title, chunks: n }),
{
    reveal_strlit(": ");
    let count = text::decimal(n) + tail;
    let rest = title + ": "@ + text::decimal(n) + tail;
    assert(rest =~= title + ": "@ + count);
    assert(rest[0] == title[0]);
    assert(rest.last() == tail.last());
    numbered_lines_tell_what_follows(num, rest);
    let c = title.len() as int;
    assert(rest.subrange(c, c + 2) =~= ": "@);
    assert(text::occurs_at(rest, ": "@, c));
    text_laws::last_places_are_last(rest, ": "@);
    let k = text::find_last(rest, ": "@)->0;
    if k > c {
        assert(rest.subrange(k, k + 2)[0] == rest[k]);
        assert(": "@[0] == ':');
        if k == c + 1 {
            assert(rest[k] == ' ');
        } else {
            assert(count.subrange(k - c - 2, k - c) =~= rest.subrange(k, k + 2));
            assert(text::occurs_at(count, ": "@, k - c - 2));
        }
    }
    assert(rest.take(c) =~= title);
    assert(rest.skip(c + 2) =~= count);
    crate::reach_laws::leading_counts_are_read(n, tail);
}

/// A line that tells of a skip gives the file that it ends with.
pub proof fn skip_lines_give_the_file(num: Seq<char>, mid: Seq<char>, path: Seq<char>)
    requires
        !num.contains(']'),
        path.len() > 0,
        !path.contains(' '),
        !text::is_white(path.last()),
    ensures
        fast::progress_of("["@ + num + "] "@ + ("skip"@ + mid + " "@ + path)) is Skip,
        fast::progress_of("["@ + num + "] "@ + ("skip"@ + mid + " "@ + path))->path == path,
{
    reveal_strlit("skip");
    reveal_strlit(" ");
    let rest = "skip"@ + mid + " "@ + path;
    assert(rest[0] == 's');
    assert(rest.last() == path.last());
    numbered_lines_tell_what_follows(num, rest);
    assert(rest.take(4) =~= "skip"@);
    assert(rest =~= ("skip"@ + mid) + seq![' '] + path);
    crate::reach_laws::last_words_follow_the_last_blank("skip"@ + mid, path);
}

/// A text in UTF-8 is read as it was written.
pub proof fn utf8_files_are_read_as_written(t: Seq<char>)
    ensures
        decode::file_text(encode_utf8(t)) == t,
{
    vstd::utf8::encode_utf8_valid_utf8(t);
    vstd::utf8::encode_utf8_decode_utf8(t);
}

/// A file in a guessed encoding is read by it where all its bytes fit, and loses no byte otherwise.
pub proof fn other_files_lose_no_byte(bytes: Seq<u8>, d: Option<(Seq<char>, bool)>, i: int)
    ensures
        d is Some && !(d->0).1 ==> decode::guessed_text(bytes, d) == (d->0).0,
        d is None || (d->0).1 ==> decode::guessed_text(bytes, d).len() == bytes.len() && (0 <= i
            < bytes.len() ==> decode::guessed_text(bytes, d)[i] as u32 == bytes[i] as u32),
{
}

/// The entry that is read of an archive is the first whose name ends so, in any case.
pub proof fn first_fitting_entries_are_read(names: Seq<Option<Seq<char>>>, suffix: Seq<char>)
    ensures
        match ebook::entry_index(names, suffix) {
            Some(i) => 0 <= i < names.len() && fits_suffix(names[i], suffix) && forall|j: int|
                0 <= j < i ==> !fits_suffix(#[trigger] names[j], suffix),
            None => forall|j: int|
                0 <= j < names.len() ==> !fits_suffix(#[trigger] names[j], suffix),
        },
{
    let p = ebook::ends_so(suffix);
    rows::lemma_first_where(names, p);
    assert forall|n: Option<Seq<char>>| p(n) == #[trigger] fits_suffix(n, suffix) by {
        if n is Some {
            let l = text::lower_ascii_all(n->0);
            let m = n->0.map_values(|c: char| text::lower_ascii(c));
            assert(l =~= m);
            if suffix.len() <= l.len() {
                assert(l.skip(l.len() - suffix.len()) =~= m.subrange(
                    m.len() - suffix.len(),
                    m.len() as int,
                ));
            }
        }
    }
}

/// A name in lower case ends in a suffix.
pub open spec fn fits_suffix(name: Option<Seq<char>>, suffix: Seq<char>) -> bool {
    match name {
        Some(n) => {
            let m = n.map_values(|c: char| text::lower_ascii(c));
            suffix.len() <= m.len() && m.subrange(m.len() - suffix.len(), m.len() as int) == suffix
        },
        None => false,
    }
}

/// A book has the title and author that it gives, without the whitespace around them, and the title
/// of its file where it gives none.
pub proof fn books_have_their_own_names(
    path: Seq<char>,
    format: crate::formats::Format,
    title: Option<Seq<char>>,
    author: Option<Seq<char>>,
    s: Seq<crate::sections::SectionV>,
)
    ensures
        ({
            let b = ebook::named_book(
                path,
                format,
                ebook::proper_name(title),
                ebook::proper_name(author),
                s,
            );
            &&& title is Some && text::trim(title->0).len() > 0 ==> b.title == text::trim(title->0)
            &&& title is None || text::trim(title->0).len() == 0 ==> b.title == ids::title_of(path)
            &&& author is Some && text::trim(author->0).len() > 0 ==> b.author == Some(
                text::trim(author->0),
            )
            &&& author is None || text::trim(author->0).len() == 0 ==> b.author is None
            &&& b.source_path == path
            &&& b.format == format
            &&& b.book_id == ids::book_id_of(path)
        }),
{
}

/// All authors of a book are named, in order and a space apart.
pub proof fn every_author_is_named(authors: Seq<Seq<char>>, k: int)
    requires
        0 <= k < authors.len(),
    ensures
        markup::author_line(authors) is Some,
        text::contains(markup::author_line(authors)->0, authors[k]),
{
    text_laws::joins_keep_every_part(authors, " "@, k);
    let head = if k == 0 {
        Seq::<char>::empty()
    } else {
        text::join(authors.take(k), " "@) + " "@
    };
    let s = text::join(authors, " "@);
    let n = head.len() as int;
    assert(s.subrange(n, n + authors[k].len()) =~= authors[k]);
    assert(text::occurs_at(s, authors[k], n));
}

/// A text is Russian exactly where it has letters and half of them or more are Cyrillic.
pub proof fn scripts_are_told_by_letters(letters: Seq<char>)
    ensures
        exists|at: Seq<int>|
            {
                &&& #[trigger] crate::prompt_laws::cyrillic_places(letters, at)
                &&& citecheck::script_for(letters) == if letters.len() > 0 && at.len() * 2
                    >= letters.len() {
                    "ru"@
                } else {
                    "en"@
                }
            },
{
    let at = crate::prompt_laws::lemma_cyrillic(letters);
}

proof fn lemma_undashed_keeps(s: Seq<char>)
    requires
        artifacts::single_dashes(s),
        s.len() > 0,
        s[0] != '-',
    ensures
        artifacts::undashed(s) == s || artifacts::undashed(s) == s.drop_last(),
{
    assert(artifacts::undashed_start(s) == s);
    if s.last() == '-' {
        let t = s.drop_last();
        if t.len() > 0 {
            assert(s[s.len() - 2] == t.last());
            if t.last() == '-' {
                assert(s[s.len() - 1] != '-');
            }
        }
        assert(artifacts::undashed_end(t) == t);
    }
}

/// A long title's slug begins as the dashed title does, for 59 characters at least.
pub proof fn long_slugs_begin_the_title(title: Seq<char>)
    requires
        artifacts::undashed(artifacts::dashed(title)).len() > 60,
    ensures
        59 <= artifacts::slug_of(title).len() <= 60,
        artifacts::slug_of(title).is_prefix_of(artifacts::dashed(title)),
{
    let d = artifacts::dashed(title);
    artifacts::lemma_dashed(title);
    assert(d.len() > 0) by {
        if d.len() == 0 {
            assert(artifacts::undashed(d).len() == 0);
        }
    }
    lemma_undashed_keeps(d);
    let s = artifacts::undashed(d);
    let t = s.take(60);
    assert(t[0] == d[0]);
    assert forall|i: int| 0 <= i && i + 1 < t.len() && #[trigger] t[i] == '-' implies t[i + 1]
        != '-' by {
        assert(d[i] == t[i]);
        assert(d[i + 1] == t[i + 1]);
    }
    lemma_undashed_keeps(t);
    let c = artifacts::undashed(t);
    assert(c =~= d.subrange(0, c.len() as int));
}

} // verus!
