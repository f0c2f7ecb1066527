//! Identity of files: path-derived book ids, fingerprints, content signatures and titles.
use vstd::prelude::*;
use std::collections::hash_map::DefaultHasher;
use std::hash::Hasher;
use vstd::std_specs::hash::DefaultHasherAdditionalSpecFns;
use vstd::utf8::encode_utf8;
use crate::manifest;
use crate::rows;
use crate::text;

verus! {

/// The id of the book at a path: the hash of the path, as sixteen hexadecimal digits.
pub open spec fn book_id_of(path: Seq<char>) -> Seq<char> {
    text::hex16(DefaultHasher::spec_finish(seq![encode_utf8(path), seq![0xffu8]]))
}

/// The id of the book at a path. The same path always has the same id.
pub fn stable_book_id(path: &str) -> (r: String)
    ensures
        r@ == book_id_of(path@),
{
    let mut h = DefaultHasher::new();
    h.write(path.as_bytes());
    let end: [u8; 1] = [0xff];
    h.write(&end);
    assert(end@ =~= seq![0xffu8]);
    assert(h@ =~= seq![encode_utf8(path@), seq![0xffu8]]);
    text::hex16_of(h.finish())
}

/// The segments of a path that name something: neither empty nor `.`.
pub open spec fn segments(path: Seq<char>) -> Seq<Seq<char>> {
    rows::keep(text::split(path, '/'), |s: Seq<char>| s.len() > 0 && s != seq!['.'])
}

/// The last segment of a path, unless it steps upwards.
pub open spec fn file_name(path: Seq<char>) -> Option<Seq<char>> {
    let s = segments(path);
    if s.len() == 0 || s.last() == seq!['.', '.'] {
        None
    } else {
        Some(s.last())
    }
}

/// The position of the last `c` in a text.
pub open spec fn last_index(s: Seq<char>, c: char) -> Option<int>
    decreases s.len(),
{
    if s.len() == 0 {
        None
    } else if s.last() == c {
        Some(s.len() - 1)
    } else {
        last_index(s.drop_last(), c)
    }
}

/// A file name up to its last dot; a name without one, or with nothing before it, is its own stem.
pub open spec fn stem_of(name: Seq<char>) -> Seq<char> {
    match last_index(name, '.') {
        Some(i) => if i > 0 {
            name.take(i)
        } else {
            name
        },
        None => name,
    }
}

/// The title of a file: the stem of its name, or a placeholder for a path without one.
pub open spec fn title_of(path: Seq<char>) -> Seq<char> {
    match file_name(path) {
        Some(name) => stem_of(name),
        None => "Untitled"@,
    }
}

/// The position of the last `c` in `v`.
pub fn last_char(v: &[char], c: char) -> (r: Option<usize>)
    ensures
        match r {
            Some(i) => i < v@.len() && last_index(v@, c) == Some(i as int),
            None => last_index(v@, c) is None,
        },
{
    let mut i: usize = v.len();
    assert(v@.take(i as int) =~= v@);
    while i > 0
        invariant
            i <= v@.len(),
            last_index(v@.take(i as int), c) == last_index(v@, c),
        decreases i,
    {
        if v[i - 1] == c {
            return Some(i - 1);
        }
        assert(v@.take(i as int).drop_last() =~= v@.take(i - 1));
        i = i - 1;
    }
    None
}

/// The last segment of a path, unless it steps upwards.
pub fn file_name_of(path: &str) -> (r: Option<String>)
    ensures
        text::opt_text(r) == file_name(path@),
{
    let v = text::chars_of(path);
    let mut parts = text::split_of(&v, '/');
    let ghost p = |s: Seq<char>| s.len() > 0 && s != seq!['.'];
    let ghost gone = |s: Seq<char>| s.len() == 0 || s == seq!['.'];
    let ghost all = parts@;
    rows::drop_where(
        &mut parts,
        |t: &String| -> (b: bool)
            ensures
                b == gone(t@)
            {
                proof {
                    reveal_strlit(".");
                    assert("."@ =~= seq!['.']);
                }
                t.as_str().is_empty() || text::same_text(t.as_str(), ".")
            },
        Ghost(gone),
    );
    proof {
        assert(rows::vals(all) =~= text::texts(all));
        rows::lemma_keep_same(rows::vals(all), |x: Seq<char>| !gone(x), p);
    }
    if parts.len() == 0 {
        return None;
    }
    let last = &parts[parts.len() - 1];
    proof {
        reveal_strlit("..");
        assert(".."@ =~= seq!['.', '.']);
        assert(rows::vals(parts@).last() == last@);
    }
    if text::same_text(last.as_str(), "..") {
        return None;
    }
    Some(last.clone())
}

/// The title of a file.
pub fn title_from_path(path: &str) -> (r: String)
    ensures
        r@ == title_of(path@),
{
    match file_name_of(path) {
        None => "Untitled".to_owned(),
        Some(name) => {
            let v = text::chars_of(name.as_str());
            match last_char(&v, '.') {
                Some(i) => if i > 0 {
                    assert(v@.take(i as int) =~= v@.subrange(0, i as int));
                    text::string_of(vstd::slice::slice_subrange(&v, 0, i))
                } else {
                    name
                },
                None => name,
            }
        },
    }
}

/// What the file system says of a file: its size and modification time in seconds.
#[derive(Debug, Clone, Copy, PartialEq, Eq)]
pub struct FileStat {
    pub len: u64,
    pub mtime: u64,
}

/// The `size:mtime` fingerprint of a file; of a file that cannot be examined, the sentinel.
pub open spec fn fingerprint_of(stat: Option<FileStat>) -> Seq<char> {
    match stat {
        Some(s) => text::decimal(s.len as nat) + seq![':'] + text::decimal(s.mtime as nat),
        None => manifest::CONTENT_SIG_MISSING@,
    }
}

/// The `size:mtime` fingerprint of a file; of a file that cannot be examined, the sentinel.
pub fn file_fingerprint(stat: Option<FileStat>) -> (r: String)
    ensures
        r@ == fingerprint_of(stat),
{
    match stat {
        Some(s) => {
            let mut out = text::decimal_of(s.len);
            out.push(':');
            out.append(text::decimal_of(s.mtime).as_str());
            assert(out@ =~= fingerprint_of(stat));
            out
        },
        None => manifest::CONTENT_SIG_MISSING.to_owned(),
    }
}

/// How many bytes of each end of a file a content signature covers.
pub const SAMPLE: u64 = 262144;

/// The bytes a content signature is made of. A part that could not be read to its end is `None`.
#[derive(Debug)]
pub struct FileSample {
    pub len: u64,
    /// The first [`SAMPLE`] bytes, or all of a shorter file.
    pub head: Option<Vec<u8>>,
    /// The last [`SAMPLE`] bytes; looked at only in files longer than two samples.
    pub tail: Option<Vec<u8>>,
}

/// A sample covers what the file's length promises. A signature of partial bytes would be shared by
/// distinct files that fail to read, and must never be given out.
pub open spec fn complete(s: FileSample) -> bool {
    &&& s.head is Some
    &&& s.head->0@.len() >= s.len || s.head->0@.len() >= SAMPLE
    &&& s.len > 2 * SAMPLE ==> s.tail is Some && s.tail->0@.len() >= SAMPLE
}

/// The bytes hashed into a signature: the length, the head and, for a long file, the tail.
pub open spec fn signed_bytes(s: FileSample) -> Seq<Seq<u8>> {
    let head = seq![vstd::bytes::spec_u64_to_le_bytes(s.len), s.head->0@];
    if s.len > 2 * SAMPLE {
        head.push(s.tail->0@)
    } else {
        head
    }
}

/// The content signature: the length and the hash of the sample, in hexadecimal.
pub open spec fn signature_of(sample: Option<FileSample>) -> Seq<char> {
    if sample is Some && complete(sample->0) {
        text::numeral(sample->0.len as nat, 16) + seq![':'] + text::hex16(
            DefaultHasher::spec_finish(signed_bytes(sample->0)),
        )
    } else {
        manifest::CONTENT_SIG_MISSING@
    }
}

/// A cheap content signature that survives moves and timestamp changes: the file size plus a hash
/// of both ends of the file. An unreadable or partly read file has the sentinel.
pub fn content_signature(sample: Option<&FileSample>) -> (r: String)
    ensures
        r@ == signature_of(
            (match sample {
                Some(s) => Some(*s),
                None => None,
            }),
        ),
{
    let s = match sample {
        Some(s) => s,
        None => {
            return manifest::CONTENT_SIG_MISSING.to_owned();
        },
    };
    let head = match &s.head {
        Some(h) => h,
        None => {
            return manifest::CONTENT_SIG_MISSING.to_owned();
        },
    };
    let n: u64 = head.len() as u64;
    if n < s.len && n < SAMPLE {
        return manifest::CONTENT_SIG_MISSING.to_owned();
    }
    let mut h = DefaultHasher::new();
    let len_bytes = vstd::bytes::u64_to_le_bytes(s.len);
    h.write(&len_bytes);
    h.write(head);
    if s.len > 2 * SAMPLE {
        match &s.tail {
            Some(t) => {
                if (t.len() as u64) < SAMPLE {
                    return manifest::CONTENT_SIG_MISSING.to_owned();
                }
                h.write(t);
            },
            None => {
                return manifest::CONTENT_SIG_MISSING.to_owned();
            },
        }
    }
    assert(h@ =~= signed_bytes(*s));
    let mut out = text::hex_of(s.len);
    out.push(':');
    out.append(text::hex16_of(h.finish()).as_str());
    assert(out@ =~= text::numeral(s.len as nat, 16) + seq![':'] + text::hex16(
        DefaultHasher::spec_finish(signed_bytes(*s)),
    ));
    out
}

/// What is hashed for a list of capabilities: each part, ended by a zero byte.
pub open spec fn caps_bytes(parts: Seq<Seq<char>>) -> Seq<Seq<u8>>
    decreases parts.len(),
{
    if parts.len() == 0 {
        Seq::empty()
    } else {
        caps_bytes(parts.drop_last()).push(encode_utf8(parts.last())).push(seq![0u8])
    }
}

/// The capabilities fingerprint of a list of parts.
pub open spec fn caps_of(parts: Seq<Seq<char>>) -> Seq<char> {
    text::hex16(DefaultHasher::spec_finish(caps_bytes(parts)))
}

/// Stable hex hash for capabilities fingerprints.
pub fn caps_hash(parts: &[&str]) -> (r: String)
    ensures
        r@ == caps_of(Seq::new(parts@.len(), |i: int| parts@[i]@)),
{
    let ghost all = Seq::new(parts@.len(), |i: int| parts@[i]@);
    let mut h = DefaultHasher::new();
    let zero: [u8; 1] = [0];
    assert(zero@ =~= seq![0u8]);
    for i in 0..parts.len()
        invariant
            all == Seq::new(parts@.len(), |i: int| parts@[i]@),
            zero@ == seq![0u8],
            h@ == caps_bytes(all.take(i as int)),
    {
        h.write(parts[i].as_bytes());
        h.write(&zero);
        assert(all.take(i as int + 1).drop_last() =~= all.take(i as int));
    }
    assert(all.take(all.len() as int) =~= all);
    text::hex16_of(h.finish())
}

} // verus!
