//! Answers and thoughts: a stream of text is split into what is the answer and what stands between
//! `<think>` tags, also where a tag arrives in pieces.
use vstd::prelude::*;
use crate::text;

verus! {

pub const THINK_OPEN: &'static str = "<think>";

pub const THINK_CLOSE: &'static str = "</think>";

/// The last `k` characters of a text are the first `k` of a tag.
pub open spec fn ends_in_start(s: Seq<char>, tag: Seq<char>, k: int) -> bool {
    0 <= k <= s.len() && k <= tag.len() && s.skip(s.len() - k) == tag.take(k)
}

/// The longest start of a tag, of `k` characters at most, that a text ends in.
pub open spec fn partial_up_to(s: Seq<char>, tag: Seq<char>, k: nat) -> nat
    decreases k,
{
    if k == 0 || ends_in_start(s, tag, k as int) {
        k
    } else {
        partial_up_to(s, tag, (k - 1) as nat)
    }
}

/// The longest proper start of a tag that a text ends in: what must be held back, since more text
/// may complete the tag.
pub open spec fn partial(s: Seq<char>, tag: Seq<char>) -> nat {
    let max = if tag.len() == 0 {
        0nat
    } else {
        (tag.len() - 1) as nat
    };
    partial_up_to(
        s,
        tag,
        if max <= s.len() {
            max
        } else {
            s.len()
        },
    )
}

proof fn lemma_partial_up_to(s: Seq<char>, tag: Seq<char>, k: nat)
    requires
        k <= s.len(),
        k <= tag.len(),
    ensures
        partial_up_to(s, tag, k) <= k,
        ends_in_start(s, tag, partial_up_to(s, tag, k) as int),
        forall|j: int| partial_up_to(s, tag, k) < j <= k ==> !ends_in_start(s, tag, j),
    decreases k,
{
    if k == 0 {
        assert(s.skip(s.len() as int) =~= tag.take(0));
    } else if !ends_in_start(s, tag, k as int) {
        lemma_partial_up_to(s, tag, (k - 1) as nat);
    }
}

/// What is held back is a proper start of the tag at the text's end, and no longer one is.
pub proof fn lemma_partial(s: Seq<char>, tag: Seq<char>)
    requires
        tag.len() > 0,
    ensures
        partial(s, tag) < tag.len(),
        partial(s, tag) <= s.len(),
        ends_in_start(s, tag, partial(s, tag) as int),
        forall|j: int|
            partial(s, tag) < j < tag.len() && j <= s.len() ==> !ends_in_start(s, tag, j),
{
    let max = (tag.len() - 1) as nat;
    lemma_partial_up_to(
        s,
        tag,
        if max <= s.len() {
            max
        } else {
            s.len()
        },
    );
}

/// The longest proper start of a tag that a text ends in.
pub fn trailing_partial(s: &[char], tag: &[char]) -> (r: usize)
    ensures
        r == partial(s@, tag@),
{
    if tag.len() == 0 {
        return 0;
    }
    let mut k: usize = if tag.len() - 1 <= s.len() {
        tag.len() - 1
    } else {
        s.len()
    };
    while k > 0
        invariant
            k <= s@.len(),
            k <= tag@.len(),
            partial(s@, tag@) == partial_up_to(s@, tag@, k as nat),
        decreases k,
    {
        let tail = vstd::slice::slice_subrange(s, s.len() - k, s.len());
        let head = vstd::slice::slice_subrange(tag, 0, k);
        assert(tail@ =~= s@.skip(s@.len() - k));
        assert(head@ =~= tag@.take(k as int));
        if text::same_chars(tail, head) {
            return k;
        }
        k = k - 1;
    }
    0
}

/// What a stretch of text is split into, and what is left over.
#[verifier::ext_equal]
pub struct SplitV {
    pub in_think: bool,
    pub buf: Seq<char>,
    pub content: Seq<char>,
    pub reasoning: Seq<char>,
}

/// The tag that ends the part a text is in.
pub open spec fn next_tag(in_think: bool) -> Seq<char> {
    if in_think {
        THINK_CLOSE@
    } else {
        THINK_OPEN@
    }
}

pub proof fn lemma_tags()
    ensures
        THINK_OPEN@.len() == 7,
        THINK_CLOSE@.len() == 8,
{
    reveal_strlit("<think>");
    reveal_strlit("</think>");
}

/// The split with text before it that belongs to the part it is in.
pub open spec fn behind(in_think: bool, before: Seq<char>, s: SplitV) -> SplitV {
    if in_think {
        SplitV { reasoning: before + s.reasoning, ..s }
    } else {
        SplitV { content: before + s.content, ..s }
    }
}

/// The split of a text that starts inside or outside a thought.
pub open spec fn split(in_think: bool, buf: Seq<char>) -> SplitV
    decreases buf.len(),
{
    let tag = next_tag(in_think);
    match text::find(buf, tag) {
        Some(i) => {
            proof {
                lemma_tags();
                text::lemma_find_from(buf, tag, 0);
            }
            behind(in_think, buf.take(i), split(!in_think, buf.skip(i + tag.len())))
        },
        None => {
            let to = buf.len() - partial(buf, tag);
            behind(
                in_think,
                buf.take(to),
                SplitV {
                    in_think,
                    buf: buf.skip(to),
                    content: Seq::empty(),
                    reasoning: Seq::empty(),
                },
            )
        },
    }
}

/// Splits answers from thoughts.
#[derive(Debug)]
pub struct ThinkSplitter {
    pub in_think: bool,
    pub buf: String,
}

impl Default for ThinkSplitter {
    fn default() -> (r: Self)
        ensures
            !r.in_think,
            r.buf@ == Seq::<char>::empty(),
    {
        let r = ThinkSplitter { in_think: false, buf: String::new() };
        assert(r.buf@ =~= Seq::empty());
        r
    }
}

impl ThinkSplitter {
    /// Takes a stretch of text and gives the answer and the thought that are ready.
    pub fn feed(&mut self, s: &str) -> (r: (String, String))
        ensures
            (SplitV {
                in_think: final(self).in_think,
                buf: final(self).buf@,
                content: r.0@,
                reasoning: r.1@,
            }) == split(old(self).in_think, old(self).buf@ + s@),
    {
        let mut v = text::chars_of(self.buf.as_str());
        text::push_chars(&mut v, &text::chars_of(s));
        let ghost whole = split(self.in_think, v@);
        let mut content = String::new();
        let mut reasoning = String::new();
        let mut from: usize = 0;
        let open = text::chars_of(THINK_OPEN);
        let close = text::chars_of(THINK_CLOSE);
        proof {
            lemma_tags();
            assert(v@.skip(0) =~= v@);
        }
        assert(whole =~= (SplitV {
            content: content@ + split(self.in_think, v@).content,
            reasoning: reasoning@ + split(self.in_think, v@).reasoning,
            ..split(self.in_think, v@)
        }));
        loop
            invariant
                from <= v@.len(),
                open@ == THINK_OPEN@,
                close@ == THINK_CLOSE@,
                open@.len() == 7,
                close@.len() == 8,
                whole == split(old(self).in_think, old(self).buf@ + s@),
                ({
                    let rest = split(self.in_think, v@.skip(from as int));
                    whole == (SplitV {
                        content: content@ + rest.content,
                        reasoning: reasoning@ + rest.reasoning,
                        ..rest
                    })
                }),
            decreases v@.len() - from,
        {
            let rest = vstd::slice::slice_subrange(v.as_slice(), from, v.len());
            assert(rest@ =~= v@.skip(from as int));
            let tag = if self.in_think {
                close.as_slice()
            } else {
                open.as_slice()
            };
            let n: usize = tag.len();
            assert(tag@ == next_tag(self.in_think));
            match text::find_chars_from(rest, tag, 0) {
                Some(i) => {
                    let part = vstd::slice::slice_subrange(rest, 0, i);
                    assert(part@ =~= rest@.take(i as int));
                    let out = text::string_of(part);
                    let ghost (c0, r0) = (content@, reasoning@);
                    if self.in_think {
                        reasoning.append(out.as_str());
                    } else {
                        content.append(out.as_str());
                    }
                    proof {
                        let next = v@.skip(from + i + n);
                        assert(rest@.skip(i + n) =~= next);
                        let inner = split(!self.in_think, next);
                        assert(split(self.in_think, rest@) == behind(
                            self.in_think,
                            part@,
                            inner,
                        ));
                        assert(whole =~= (SplitV {
                            content: content@ + inner.content,
                            reasoning: reasoning@ + inner.reasoning,
                            ..inner
                        }));
                    }
                    self.in_think = !self.in_think;
                    from = from + i + n;
                },
                None => {
                    let keep: usize = trailing_partial(rest, tag);
                    proof {
                        lemma_partial(rest@, tag@);
                    }
                    let to: usize = rest.len() - keep;
                    let part = vstd::slice::slice_subrange(rest, 0, to);
                    assert(part@ =~= rest@.take(to as int));
                    let out = text::string_of(part);
                    if self.in_think {
                        reasoning.append(out.as_str());
                    } else {
                        content.append(out.as_str());
                    }
                    let held = vstd::slice::slice_subrange(rest, to, rest.len());
                    assert(held@ =~= rest@.skip(to as int));
                    self.buf = text::string_of(held);
                    assert((SplitV {
                        in_think: self.in_think,
                        buf: self.buf@,
                        content: content@,
                        reasoning: reasoning@,
                    }) =~= whole);
                    return (content, reasoning);
                },
            }
        }
    }

    /// Gives what is held back once the stream is over.
    pub fn finish(&mut self) -> (r: (String, String))
        ensures
            final(self).in_think == old(self).in_think,
            final(self).buf@ == Seq::<char>::empty(),
            r.0@ == (if old(self).in_think {
                Seq::empty()
            } else {
                old(self).buf@
            }),
            r.1@ == (if old(self).in_think {
                old(self).buf@
            } else {
                Seq::empty()
            }),
    {
        let rest = self.buf.clone();
        self.buf = String::new();
        let none = String::new();
        assert(none@ =~= Seq::empty());
        assert(self.buf@ =~= Seq::empty());
        if self.in_think {
            (none, rest)
        } else {
            (rest, none)
        }
    }
}

// ---- chunks do not matter --------------------------------------------------------------------

proof fn lemma_occurs_in_front(u: Seq<char>, b: Seq<char>, tag: Seq<char>, p: int)
    requires
        0 <= p,
        p + tag.len() <= u.len(),
    ensures
        text::occurs_at(u + b, tag, p) == text::occurs_at(u, tag, p),
{
    assert((u + b).subrange(p, p + tag.len()) =~= u.subrange(p, p + tag.len()));
}

/// Nothing that is let go of can be the start of a tag, whatever follows.
proof fn lemma_let_go(u: Seq<char>, b: Seq<char>, tag: Seq<char>, p: int)
    requires
        tag.len() > 0,
        text::find(u, tag) is None,
        0 <= p < u.len() - partial(u, tag),
    ensures
        !text::occurs_at(u + b, tag, p),
{
    text::lemma_find_from(u, tag, 0);
    lemma_partial(u, tag);
    if text::occurs_at(u + b, tag, p) {
        if p + tag.len() <= u.len() {
            lemma_occurs_in_front(u, b, tag, p);
        } else {
            let j = u.len() - p;
            assert(u.skip(p) =~= (u + b).subrange(p, p + tag.len()).take(j));
            assert(u.skip(u.len() - j) == tag.take(j));
            assert(ends_in_start(u, tag, j));
        }
    }
}

proof fn lemma_find_is(s: Seq<char>, tag: Seq<char>, i: int)
    requires
        0 <= i,
        text::occurs_at(s, tag, i),
        forall|j: int| 0 <= j < i ==> !#[trigger] text::occurs_at(s, tag, j),
    ensures
        text::find(s, tag) == Some(i),
{
    text::lemma_find_from(s, tag, 0);
    match text::find(s, tag) {
        Some(k) => {
            if k < i {
                assert(!text::occurs_at(s, tag, k));
            }
            if i < k {
                assert(!text::occurs_at(s, tag, i));
            }
        },
        None => {},
    }
}

proof fn lemma_find_none(s: Seq<char>, tag: Seq<char>)
    requires
        forall|j: int| 0 <= j ==> !#[trigger] text::occurs_at(s, tag, j),
    ensures
        text::find(s, tag) is None,
{
    text::lemma_find_from(s, tag, 0);
}

proof fn lemma_occurs_shifted(x: Seq<char>, s: Seq<char>, tag: Seq<char>, j: int)
    requires
        0 <= j,
    ensures
        text::occurs_at(x + s, tag, x.len() + j) == text::occurs_at(s, tag, j),
{
    if j + tag.len() <= s.len() {
        assert((x + s).subrange(x.len() + j, x.len() + j + tag.len()) =~= s.subrange(
            j,
            j + tag.len(),
        ));
    }
}

/// Two splits, one after the other, as one.
pub open spec fn followed(first: SplitV, second: SplitV) -> SplitV {
    SplitV {
        content: first.content + second.content,
        reasoning: first.reasoning + second.reasoning,
        ..second
    }
}

proof fn lemma_followed_behind(in_think: bool, x: Seq<char>, first: SplitV, second: SplitV)
    ensures
        followed(behind(in_think, x, first), second) == behind(
            in_think,
            x,
            followed(first, second),
        ),
{
    let a = followed(behind(in_think, x, first), second);
    let b = behind(in_think, x, followed(first, second));
    assert(x + first.content + second.content =~= x + (first.content + second.content));
    assert(x + first.reasoning + second.reasoning =~= x + (first.reasoning + second.reasoning));
    assert(a =~= b);
}

/// The text held back is taken up again: what was let go of stands before it either way.
proof fn lemma_take_up(in_think: bool, u: Seq<char>, b: Seq<char>)
    requires
        text::find(u, next_tag(in_think)) is None,
    ensures
        ({
            let to = u.len() - partial(u, next_tag(in_think));
            split(in_think, u + b) == behind(
                in_think,
                u.take(to),
                split(in_think, u.skip(to) + b),
            )
        }),
{
    lemma_tags();
    let tag = next_tag(in_think);
    lemma_partial(u, tag);
    let to = u.len() - partial(u, tag);
    let x = u.take(to);
    let keep = u.skip(to);
    let s = keep + b;
    assert(u + b =~= x + s);
    assert(x + keep =~= u);
    text::lemma_find_from(s, tag, 0);
    assert forall|j: int| 0 <= j < to implies !#[trigger] text::occurs_at(x + s, tag, j) by {
        lemma_let_go(u, b, tag, j);
    }
    match text::find(s, tag) {
        Some(j) => {
            lemma_occurs_shifted(x, s, tag, j);
            assert forall|k: int| 0 <= k < to + j implies !#[trigger] text::occurs_at(
                x + s,
                tag,
                k,
            ) by {
                if k >= to {
                    lemma_occurs_shifted(x, s, tag, k - to);
                }
            }
            lemma_find_is(x + s, tag, to + j);
            let rest = split(!in_think, s.skip(j + tag.len()));
            assert((x + s).skip(to + j + tag.len()) =~= s.skip(j + tag.len()));
            assert((x + s).take(to + j) =~= x + s.take(j));
            lemma_behind_behind(in_think, x, s.take(j), rest);
        },
        None => {
            assert forall|k: int| 0 <= k implies !#[trigger] text::occurs_at(x + s, tag, k) by {
                if k >= to {
                    lemma_occurs_shifted(x, s, tag, k - to);
                }
            }
            lemma_find_none(x + s, tag);
            lemma_same_partial(x, keep, b, tag);
            lemma_partial(s, tag);
            let all = x + s;
            let cut = all.len() - partial(all, tag);
            let left = s.len() - partial(s, tag);
            assert(all.take(cut) =~= x + s.take(left));
            assert(all.skip(cut) =~= s.skip(left));
            lemma_behind_behind(
                in_think,
                x,
                s.take(left),
                SplitV {
                    in_think,
                    buf: s.skip(left),
                    content: Seq::empty(),
                    reasoning: Seq::empty(),
                },
            );
        },
    }
}

proof fn lemma_behind_behind(in_think: bool, x: Seq<char>, y: Seq<char>, s: SplitV)
    ensures
        behind(in_think, x + y, s) == behind(in_think, x, behind(in_think, y, s)),
{
    assert(x + y + s.content =~= x + (y + s.content));
    assert(x + y + s.reasoning =~= x + (y + s.reasoning));
    assert(behind(in_think, x + y, s) =~= behind(in_think, x, behind(in_think, y, s)));
}

/// Splitting a text at once is splitting it in two stretches, one after the other.
proof fn lemma_split_in_two(in_think: bool, u: Seq<char>, b: Seq<char>)
    ensures
        split(in_think, u + b) == followed(
            split(in_think, u),
            split(split(in_think, u).in_think, split(in_think, u).buf + b),
        ),
    decreases u.len(),
{
    lemma_tags();
    let tag = next_tag(in_think);
    let first = split(in_think, u);
    let second = split(first.in_think, first.buf + b);
    text::lemma_find_from(u, tag, 0);
    match text::find(u, tag) {
        Some(i) => {
            lemma_occurs_in_front(u, b, tag, i);
            assert forall|j: int| 0 <= j < i implies !#[trigger] text::occurs_at(u + b, tag, j) by {
                lemma_occurs_in_front(u, b, tag, j);
            }
            lemma_find_is(u + b, tag, i);
            let rest = u.skip(i + tag.len());
            assert((u + b).skip(i + tag.len()) =~= rest + b);
            assert((u + b).take(i) =~= u.take(i));
            lemma_split_in_two(!in_think, rest, b);
            lemma_followed_behind(in_think, u.take(i), split(!in_think, rest), second);
        },
        None => {
            let to = u.len() - partial(u, tag);
            let held = SplitV {
                in_think,
                buf: u.skip(to),
                content: Seq::empty(),
                reasoning: Seq::empty(),
            };
            lemma_take_up(in_think, u, b);
            lemma_followed_behind(in_think, u.take(to), held, second);
            assert(followed(held, second) =~= second);
        },
    }
}

proof fn lemma_same_partial(x: Seq<char>, keep: Seq<char>, b: Seq<char>, tag: Seq<char>)
    requires
        tag.len() > 0,
        keep.len() == partial(x + keep, tag),
    ensures
        partial(x + (keep + b), tag) == partial(keep + b, tag),
{
    let u = x + keep;
    let s = keep + b;
    let all = x + s;
    lemma_partial(u, tag);
    lemma_partial(s, tag);
    lemma_partial(all, tag);
    let k = partial(s, tag) as int;
    let j = partial(all, tag) as int;
    assert(all.skip(all.len() - k) =~= s.skip(s.len() - k));
    assert(ends_in_start(all, tag, k));
    assert(k <= j);
    if j > k {
        if j <= s.len() {
            assert(all.skip(all.len() - j) =~= s.skip(s.len() - j));
            assert(ends_in_start(s, tag, j));
        } else {
            let i = j - b.len();
            assert(u.skip(u.len() - i) =~= all.skip(all.len() - j).take(i));
            assert(tag.take(j).take(i) =~= tag.take(i));
            assert(ends_in_start(u, tag, i));
        }
    }
}

/// How a text arrives does not matter: fed in two stretches it gives the same answer, the same
/// thought and the same rest as fed at once, wherever a tag is broken.
pub proof fn stretches_do_not_matter(in_think: bool, held: Seq<char>, a: Seq<char>, b: Seq<char>)
    ensures
        ({
            let first = split(in_think, held + a);
            let second = split(first.in_think, first.buf + b);
            let whole = split(in_think, held + (a + b));
            &&& whole.content == first.content + second.content
            &&& whole.reasoning == first.reasoning + second.reasoning
            &&& whole.in_think == second.in_think
            &&& whole.buf == second.buf
        }),
{
    lemma_split_in_two(in_think, held + a, b);
    assert(held + a + b =~= held + (a + b));
}

/// Text without any part of a tag comes out as it went in.
pub proof fn plain_text_passes(s: Seq<char>)
    requires
        !text::contains(s, THINK_OPEN@),
        partial(s, THINK_OPEN@) == 0,
    ensures
        split(false, s).content == s,
        split(false, s).reasoning == Seq::<char>::empty(),
        split(false, s).buf == Seq::<char>::empty(),
        !split(false, s).in_think,
{
    text::lemma_find_contains(s, THINK_OPEN@);
    assert(s.take(s.len() as int) + Seq::<char>::empty() =~= s);
    assert(s.skip(s.len() as int) =~= Seq::empty());
}

} // verus!
