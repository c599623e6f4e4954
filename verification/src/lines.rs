use vstd::prelude::*;
use vstd::utf8::*;

use crate::text::{
    chars_of, lemma_encode_ascii_char, lemma_encode_avoids, lemma_encode_char_avoids,
    lemma_encode_concat, lemma_encode_last, str_from_utf8,
};

verus! {

/// A line without the carriage return that ends it, if any.
pub open spec fn strip_cr(b: Seq<u8>) -> Seq<u8> {
    if b.len() > 0 && b.last() == 13 {
        b.drop_last()
    } else {
        b
    }
}

/// The lines of `b`, where `cur` holds the bytes of a line already begun.
pub open spec fn lines_from(b: Seq<u8>, cur: Seq<u8>) -> Seq<Seq<u8>>
    decreases b.len(),
{
    if b.len() == 0 {
        if cur.len() == 0 {
            seq![]
        } else {
            seq![cur]
        }
    } else if b[0] == 10 {
        seq![strip_cr(cur)] + lines_from(b.drop_first(), seq![])
    } else {
        lines_from(b.drop_first(), cur.push(b[0]))
    }
}

/// The lines of `b` as `BufRead::lines` yields them: the pieces between line
/// feeds, each without its line feed or the carriage return before it; a
/// final piece that no line feed ends is a line too when it is not empty.
pub open spec fn split_lines(b: Seq<u8>) -> Seq<Seq<u8>> {
    lines_from(b, seq![])
}

/// The characters of a line, when its bytes are well-formed UTF-8.
pub open spec fn line_text(b: Seq<u8>) -> Option<Seq<char>> {
    if valid_utf8(b) {
        Some(decode_utf8(b))
    } else {
        None
    }
}

/// The characters that the bytes `b` encode, or `None` when they are not
/// well-formed UTF-8.
pub fn decode_line(b: &[u8]) -> (r: Option<Vec<char>>)
    ensures
        match line_text(b@) {
            Some(t) => r matches Some(v) && v@ == t,
            None => r is None,
        },
{
    match str_from_utf8(b) {
        Ok(s) => Some(chars_of(s)),
        Err(_) => None,
    }
}

/// Reads the lines of a byte buffer one by one.
pub struct LineReader<'a> {
    bytes: &'a [u8],
    pos: usize,
}

impl<'a> LineReader<'a> {
    /// The lines that are still to be read.
    pub closed spec fn rest(&self) -> Seq<Seq<u8>> {
        split_lines(self.bytes@.skip(self.pos as int))
    }

    pub closed spec fn wf(&self) -> bool {
        self.pos <= self.bytes@.len()
    }

    /// A reader at the start of `bytes`.
    pub fn new(bytes: &'a [u8]) -> (r: Self)
        ensures
            r.wf(),
            r.rest() == split_lines(bytes@),
    {
        let r = LineReader { bytes, pos: 0 };
        assert(bytes@.skip(0) =~= bytes@);
        r
    }

    /// The next line, or `None` once all have been read.
    pub fn next_line(&mut self) -> (r: Option<Vec<u8>>)
        requires
            old(self).wf(),
        ensures
            final(self).wf(),
            old(self).rest().len() == 0 ==> r is None && final(self).rest() == old(self).rest(),
            old(self).rest().len() > 0 ==> (r matches Some(l) && l@ == old(self).rest()[0]
                && final(self).rest() == old(self).rest().drop_first()),
    {
        let n = self.bytes.len();
        let start = self.pos;
        if start == n {
            assert(self.bytes@.skip(start as int) =~= Seq::<u8>::empty());
            return None;
        }
        let ghost b = self.bytes@;
        let mut cur: Vec<u8> = Vec::new();
        let mut j = start;
        while j < n && self.bytes[j] != 10
            invariant
                start <= j <= n,
                n == self.bytes@.len(),
                b == self.bytes@,
                start < n,
                self.pos == start,
                cur@ == b.subrange(start as int, j as int),
                split_lines(b.skip(start as int)) == lines_from(b.skip(j as int), cur@),
            decreases n - j,
        {
            assert(b.skip(j as int).drop_first() =~= b.skip(j + 1));
            cur.push(self.bytes[j]);
            assert(cur@ =~= b.subrange(start as int, j + 1));
            j = j + 1;
        }
        if j == n {
            assert(b.skip(j as int) =~= Seq::<u8>::empty());
            self.pos = n;
            assert(self.bytes@.skip(n as int) =~= Seq::<u8>::empty());
            assert(cur@.len() > 0);
            Some(cur)
        } else {
            assert(b.skip(j as int).drop_first() =~= b.skip(j + 1));
            self.pos = j + 1;
            let len = cur.len();
            if len > 0 && cur[len - 1] == 13 {
                cur.pop();
                assert(cur@ =~= strip_cr(b.subrange(start as int, j as int)));
            }
            Some(cur)
        }
    }
}

/// The text made of the lines `ls`, each followed by a line feed.
pub open spec fn join_lines(ls: Seq<Seq<char>>) -> Seq<char>
    decreases ls.len(),
{
    if ls.len() == 0 {
        seq![]
    } else {
        ls[0] + seq!['\n'] + join_lines(ls.drop_first())
    }
}

/// A line that reads back as itself: it holds no line feed and does not end
/// with a carriage return.
pub open spec fn plain_line(l: Seq<char>) -> bool {
    &&& forall|i: int| 0 <= i < l.len() ==> l[i] != '\n'
    &&& l.len() > 0 ==> l.last() != '\r'
}

/// Adding a line at the end of the lines adds it, with its line feed, at the
/// end of the text.
pub proof fn lemma_join_lines_push(ls: Seq<Seq<char>>, l: Seq<char>)
    ensures
        join_lines(ls.push(l)) == join_lines(ls) + l + seq!['\n'],
    decreases ls.len(),
{
    if ls.len() == 0 {
        assert(ls.push(l).drop_first() =~= Seq::<Seq<char>>::empty());
        assert(join_lines(ls.push(l).drop_first()) =~= Seq::<char>::empty());
        assert(join_lines(ls.push(l)) =~= join_lines(ls) + l + seq!['\n']);
    } else {
        assert(ls.push(l).drop_first() =~= ls.drop_first().push(l));
        lemma_join_lines_push(ls.drop_first(), l);
        assert(join_lines(ls.push(l)) =~= join_lines(ls) + l + seq!['\n']);
    }
}

/// Joining two runs of lines joins their texts.
pub proof fn lemma_join_lines_concat(ls: Seq<Seq<char>>, ms: Seq<Seq<char>>)
    ensures
        join_lines(ls + ms) == join_lines(ls) + join_lines(ms),
    decreases ls.len(),
{
    if ls.len() == 0 {
        assert(ls + ms =~= ms);
        assert(join_lines(ls) + join_lines(ms) =~= join_lines(ms));
    } else {
        assert((ls + ms).drop_first() =~= ls.drop_first() + ms);
        lemma_join_lines_concat(ls.drop_first(), ms);
        assert(join_lines(ls + ms) =~= join_lines(ls) + join_lines(ms));
    }
}

proof fn lemma_lines_from_line(a: Seq<u8>, r: Seq<u8>, cur: Seq<u8>)
    requires
        forall|i: int| 0 <= i < a.len() ==> a[i] != 10,
    ensures
        lines_from(a + seq![10u8] + r, cur) == seq![strip_cr(cur + a)] + lines_from(r, seq![]),
    decreases a.len(),
{
    let b = a + seq![10u8] + r;
    if a.len() == 0 {
        assert(b[0] == 10);
        assert(b.drop_first() =~= r);
        assert(cur + a =~= cur);
    } else {
        assert(b[0] == a[0]);
        assert(b.drop_first() =~= a.drop_first() + seq![10u8] + r);
        lemma_lines_from_line(a.drop_first(), r, cur.push(a[0]));
        assert(cur.push(a[0]) + a.drop_first() =~= cur + a);
    }
}

/// Splitting bytes that end in a line feed, followed by more bytes, gives
/// the lines before that line feed and then the lines of the rest.
proof fn lemma_lines_from_split(p: Seq<u8>, r: Seq<u8>, cur: Seq<u8>)
    ensures
        lines_from(p + seq![10u8] + r, cur) == lines_from(p + seq![10u8], cur) + lines_from(
            r,
            seq![],
        ),
    decreases p.len(),
{
    let b = p + seq![10u8] + r;
    let c = p + seq![10u8];
    if p.len() == 0 {
        assert(b[0] == 10);
        assert(b.drop_first() =~= r);
        assert(c[0] == 10);
        assert(c.drop_first() =~= Seq::<u8>::empty());
        assert(lines_from(Seq::<u8>::empty(), seq![]) =~= Seq::<Seq<u8>>::empty());
        assert(lines_from(c, cur) =~= seq![strip_cr(cur)]);
        assert(lines_from(b, cur) =~= seq![strip_cr(cur)] + lines_from(r, seq![]));
    } else if p[0] == 10 {
        assert(b[0] == 10);
        assert(c[0] == 10);
        assert(b.drop_first() =~= p.drop_first() + seq![10u8] + r);
        assert(c.drop_first() =~= p.drop_first() + seq![10u8]);
        lemma_lines_from_split(p.drop_first(), r, seq![]);
        let h = seq![strip_cr(cur)];
        let m = lines_from(p.drop_first() + seq![10u8], seq![]);
        let t = lines_from(r, seq![]);
        assert(h + (m + t) =~= h + m + t);
    } else {
        assert(b[0] == p[0]);
        assert(c[0] == p[0]);
        assert(b.drop_first() =~= p.drop_first() + seq![10u8] + r);
        assert(c.drop_first() =~= p.drop_first() + seq![10u8]);
        lemma_lines_from_split(p.drop_first(), r, cur.push(p[0]));
    }
}

/// The lines of `p`, a line feed and `r` are the lines of `p` and its line
/// feed followed by the lines of `r`: a line feed ends a line for good.
pub proof fn lemma_split_lines_concat(p: Seq<u8>, r: Seq<u8>)
    ensures
        split_lines(p + seq![10u8] + r) == split_lines(p + seq![10u8]) + split_lines(r),
{
    lemma_lines_from_split(p, r, seq![]);
}

/// A line feed ends the first line: the lines of `a`, a line feed and `r`,
/// where `a` holds no line feed, are `a` without a final carriage return
/// followed by the lines of `r`.
pub proof fn lemma_split_lines_first(a: Seq<u8>, r: Seq<u8>)
    requires
        forall|i: int| 0 <= i < a.len() ==> a[i] != 10,
    ensures
        split_lines(a + seq![10u8] + r) == seq![strip_cr(a)] + split_lines(r),
{
    lemma_lines_from_line(a, r, seq![]);
    assert(Seq::<u8>::empty() + a =~= a);
}

proof fn lemma_lines_from_final(b: Seq<u8>, cur: Seq<u8>)
    requires
        b.len() == 0 ==> cur.len() > 0 && cur.last() != 13,
        b.len() > 0 ==> b.last() != 10 && b.last() != 13,
    ensures
        lines_from(b + seq![10u8], cur) == lines_from(b, cur),
    decreases b.len(),
{
    let c = b + seq![10u8];
    if b.len() == 0 {
        assert(c[0] == 10);
        assert(c.drop_first() =~= Seq::<u8>::empty());
        assert(lines_from(Seq::<u8>::empty(), seq![]) =~= Seq::<Seq<u8>>::empty());
        assert(strip_cr(cur) == cur);
        assert(lines_from(c, cur) =~= seq![cur]);
    } else {
        assert(c[0] == b[0]);
        assert(c.drop_first() =~= b.drop_first() + seq![10u8]);
        if b[0] == 10 {
            assert(b.len() > 1);
            assert(b.drop_first().last() == b.last());
            lemma_lines_from_final(b.drop_first(), seq![]);
        } else {
            if b.len() > 1 {
                assert(b.drop_first().last() == b.last());
            } else {
                assert(cur.push(b[0]).last() == b.last());
            }
            lemma_lines_from_final(b.drop_first(), cur.push(b[0]));
        }
    }
}

/// A final line needs no line feed: adding one after input that does not
/// already end a line (with a line feed or a carriage return) leaves its
/// lines as they were.
pub proof fn lemma_final_line_feed(b: Seq<u8>)
    requires
        b.len() > 0,
        b.last() != 10,
        b.last() != 13,
    ensures
        split_lines(b + seq![10u8]) == split_lines(b),
{
    lemma_lines_from_final(b, seq![]);
}

/// Splitting the UTF-8 bytes of joined plain lines gives back the bytes of
/// each line.
pub proof fn lemma_split_joined(ls: Seq<Seq<char>>)
    requires
        forall|i: int| 0 <= i < ls.len() ==> plain_line(#[trigger] ls[i]),
    ensures
        split_lines(encode_utf8(join_lines(ls))) == ls.map_values(|l: Seq<char>| encode_utf8(l)),
    decreases ls.len(),
{
    if ls.len() == 0 {
        assert(encode_utf8(join_lines(ls)) =~= Seq::<u8>::empty());
        assert(ls.map_values(|l: Seq<char>| encode_utf8(l)) =~= Seq::<Seq<u8>>::empty());
    } else {
        let l = ls[0];
        let rest = ls.drop_first();
        assert(plain_line(l));
        assert forall|i: int| 0 <= i < rest.len() implies plain_line(#[trigger] rest[i]) by {
            assert(rest[i] == ls[i + 1]);
        }
        lemma_split_joined(rest);
        let tail = join_lines(rest);
        lemma_encode_concat(l + seq!['\n'], tail);
        lemma_encode_concat(l, seq!['\n']);
        lemma_encode_ascii_char('\n');
        assert(('\n' as u32) == 10);
        let el = encode_utf8(l);
        assert(encode_utf8(join_lines(ls)) =~= el + seq![10u8] + encode_utf8(tail));
        lemma_encode_avoids(l, '\n');
        lemma_lines_from_line(el, encode_utf8(tail), seq![]);
        assert(Seq::<u8>::empty() + el =~= el);
        if l.len() == 0 {
            assert(el =~= Seq::<u8>::empty());
        } else {
            lemma_encode_last(l);
            lemma_encode_char_avoids(l.last(), '\r');
            let e1 = encode_utf8(seq![l.last()]);
            assert(el.last() == e1[e1.len() - 1]);
            assert(strip_cr(el) == el);
        }
        assert(ls.map_values(|l: Seq<char>| encode_utf8(l)) =~= seq![el] + rest.map_values(
            |l: Seq<char>| encode_utf8(l),
        ));
    }
}

/// Joined plain lines, the last of them not empty, read the same when the
/// final line feed is dropped.
pub proof fn lemma_final_line_feed_dropped(ls: Seq<Seq<char>>)
    requires
        ls.len() > 0,
        ls.last().len() > 0,
        forall|i: int| 0 <= i < ls.len() ==> plain_line(#[trigger] ls[i]),
    ensures
        encode_utf8(join_lines(ls)).len() > 0,
        split_lines(encode_utf8(join_lines(ls)).drop_last()) == split_lines(
            encode_utf8(join_lines(ls)),
        ),
{
    let l = ls.last();
    let init = ls.drop_last();
    lemma_join_lines_push(init, l);
    assert(init.push(l) =~= ls);
    let a = join_lines(init) + l;
    lemma_encode_concat(a, seq!['\n']);
    lemma_encode_ascii_char('\n');
    assert(('\n' as u32) == 10);
    let w = encode_utf8(join_lines(ls));
    let b = encode_utf8(a);
    assert(w =~= b + seq![10u8]);
    assert(w.drop_last() =~= b);
    lemma_encode_concat(join_lines(init), l);
    lemma_encode_last(l);
    let c = l.last();
    assert(plain_line(ls[ls.len() - 1]));
    assert(c == l[l.len() - 1]);
    lemma_encode_char_avoids(c, '\r');
    lemma_encode_char_avoids(c, '\n');
    assert(('\r' as u8) == 13);
    assert(('\n' as u8) == 10);
    let e1 = encode_utf8(seq![c]);
    let el = encode_utf8(l);
    assert(el.last() == e1[e1.len() - 1]);
    assert(b.last() == el.last());
    lemma_final_line_feed(b);
}

} // verus!
