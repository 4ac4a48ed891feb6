//! The text form of a mesh, line by line: `v x y z` gives a vertex, `f a b
//! c ...` a polygon over vertices counted from one, anything else is passed
//! over. Coordinates are handed back as the text they were written in.

use vstd::prelude::*;
use vstd::slice::slice_subrange;

verus! {

/// Blank, tab, line feed, vertical tab, form feed and carriage return
/// separate the words of a line.
pub open spec fn is_space(b: u8) -> bool {
    b == 0x20 || (0x09 <= b && b <= 0x0D)
}

/// The bytes from `start` up to `end` of a line.
#[derive(Clone, Copy, Debug, PartialEq, Eq, Structural)]
pub struct Span {
    pub start: usize,
    pub end: usize,
}

impl Span {
    /// The text the span covers.
    pub open spec fn of(self, line: Seq<u8>) -> Seq<u8> {
        line.subrange(self.start as int, self.end as int)
    }
}

/// Whether `start..end` is a word of the line: a run of bytes that are not
/// separators, with a separator or the line's end on either side.
pub open spec fn is_word(line: Seq<u8>, start: int, end: int) -> bool {
    &&& 0 <= start < end <= line.len()
    &&& forall|i: int| start <= i < end ==> !is_space(#[trigger] line[i])
    &&& (start == 0 || is_space(line[start - 1]))
    &&& (end == line.len() || is_space(line[end]))
}

/// Whether `spans` are the words among the first `upto` bytes of the line,
/// each once and in order.
pub open spec fn words_upto(line: Seq<u8>, spans: Seq<Span>, upto: int) -> bool {
    &&& forall|k: int|
        0 <= k < spans.len() ==> is_word(line, (#[trigger] spans[k]).start as int, spans[k].end as int)
            && spans[k].end <= upto
    &&& forall|j: int, k: int|
        0 <= j < k < spans.len() ==> (#[trigger] spans[j]).end < (#[trigger] spans[k]).start
    &&& forall|i: int|
        0 <= i < upto && !is_space(#[trigger] line[i]) ==> exists|k: int|
            0 <= k < spans.len() && (#[trigger] spans[k]).start <= i < spans[k].end
}

/// Whether `spans` are the words of the line, each once and in order.
pub open spec fn words_of(line: Seq<u8>, spans: Seq<Span>) -> bool {
    words_upto(line, spans, line.len() as int)
}

/// A word of one splitting is a word of every other: the span that covers
/// a byte of it in the other splitting is the same span.
proof fn lemma_word_found(line: Seq<u8>, a: Seq<Span>, b: Seq<Span>, k: int) -> (j: int)
    requires
        words_of(line, a),
        words_of(line, b),
        0 <= k < a.len(),
    ensures
        0 <= j < b.len(),
        b[j] == a[k],
{
    let w = a[k];
    assert(is_word(line, w.start as int, w.end as int));
    let at = w.start as int;
    assert(!is_space(line[at]));
    let j = choose|j: int| 0 <= j < b.len() && (#[trigger] b[j]).start <= at < b[j].end;
    let v = b[j];
    assert(is_word(line, v.start as int, v.end as int));
    if v.start < w.start {
        assert(!is_space(line[w.start - 1]));
    }
    if v.end < w.end {
        assert(!is_space(line[v.end as int]));
    }
    if w.end < v.end {
        assert(!is_space(line[w.end as int]));
    }
    j
}

/// The first `n` words of two splittings of one line are the same.
proof fn lemma_words_agree(line: Seq<u8>, a: Seq<Span>, b: Seq<Span>, n: int)
    requires
        words_of(line, a),
        words_of(line, b),
        0 <= n <= a.len(),
    ensures
        n <= b.len(),
        forall|k: int| 0 <= k < n ==> a[k] == b[k],
    decreases n,
{
    if n > 0 {
        lemma_words_agree(line, a, b, n - 1);
        let k = n - 1;
        let j = lemma_word_found(line, a, b, k);
        if j < k {
            assert(a[j] == b[j]);
            assert(a[j].end < a[k].start);
            assert(is_word(line, a[k].start as int, a[k].end as int));
        }
        if j > k {
            let i = lemma_word_found(line, b, a, k);
            assert(b[k].end < b[j].start);
            assert(is_word(line, b[k].start as int, b[k].end as int));
            if i < k {
                assert(a[i] == b[i]);
                assert(b[i].end < b[k].start);
            } else if i > k {
                assert(a[k].end < a[i].start);
            }
        }
    }
}

/// A line has one splitting into words.
pub proof fn lemma_words_unique(line: Seq<u8>, a: Seq<Span>, b: Seq<Span>)
    requires
        words_of(line, a),
        words_of(line, b),
    ensures
        a == b,
{
    lemma_words_agree(line, a, b, a.len() as int);
    lemma_words_agree(line, b, a, b.len() as int);
    assert(a =~= b);
}

/// Decides whether a byte separates words.
fn space(b: u8) -> (r: bool)
    ensures
        r == is_space(b),
{
    b == 0x20 || (0x09 <= b && b <= 0x0D)
}

/// Splits a line into its words.
pub fn split_words(line: &[u8]) -> (spans: Vec<Span>)
    ensures
        words_of(line@, spans@),
{
    let mut spans: Vec<Span> = Vec::new();
    let n: usize = line.len();
    let mut i: usize = 0;
    while i < n
        invariant
            n == line@.len(),
            i <= n,
            i == 0 || is_space(line@[i - 1]) || (spans@.len() > 0 && spans@[spans@.len() - 1].end
                == i),
            words_upto(line@, spans@, i as int),
        decreases n - i,
    {
        if space(line[i]) {
            i += 1;
        } else {
            let start: usize = i;
            let ghost before = spans@;
            while i < n && !space(line[i])
                invariant
                    n == line@.len(),
                    start <= i <= n,
                    forall|j: int| start <= j < i ==> !is_space(#[trigger] line@[j]),
                decreases n - i,
            {
                i += 1;
            }
            spans.push(Span { start, end: i });
            proof {
                let after = spans@;
                let last = after.len() - 1;
                assert(is_word(line@, start as int, i as int));
                assert forall|k: int| 0 <= k < after.len() implies is_word(
                    line@,
                    (#[trigger] after[k]).start as int,
                    after[k].end as int,
                ) && after[k].end <= i by {
                    if k < last {
                        assert(after[k] == before[k]);
                    }
                }
                assert forall|j: int, k: int| 0 <= j < k < after.len() implies (#[trigger] after[j]).end
                    < (#[trigger] after[k]).start by {
                    assert(after[j] == before[j]);
                    if k < last {
                        assert(after[k] == before[k]);
                    } else {
                        assert(before[j].end <= start);
                        assert(is_word(line@, before[j].start as int, before[j].end as int));
                        if before[j].end == start {
                            assert(is_space(line@[before[j].end as int]));
                        }
                    }
                }
                assert forall|p: int| 0 <= p < i && !is_space(#[trigger] line@[p]) implies exists|
                    k: int,
                |
                    0 <= k < after.len() && (#[trigger] after[k]).start <= p < after[k].end by {
                    if p < start {
                        let k = choose|k: int|
                            0 <= k < before.len() && (#[trigger] before[k]).start <= p
                                < before[k].end;
                        assert(after[k] == before[k]);
                    } else {
                        assert(after[last].start <= p < after[last].end);
                    }
                }
            }
        }
    }
    spans
}

/// The value of a run of decimal digits, the first digit weighing most.
pub open spec fn decimal(digits: Seq<u8>) -> nat
    decreases digits.len(),
{
    if digits.len() == 0 {
        0
    } else {
        (decimal(digits.drop_last()) * 10 + (digits.last() - 0x30)) as nat
    }
}

/// Whether every byte is a decimal digit.
pub open spec fn all_digits(s: Seq<u8>) -> bool {
    forall|i: int| 0 <= i < s.len() ==> 0x30 <= (#[trigger] s[i]) <= 0x39
}

/// How many bytes of a word come before its first slash.
pub open spec fn head_len(word: Seq<u8>) -> int
    decreases word.len(),
{
    if word.len() == 0 || word[0] == 0x2F {
        0
    } else {
        1 + head_len(word.subrange(1, word.len() as int))
    }
}

/// The vertex a word of a polygon line names, counted from zero. The word's
/// text before its first slash is read as a number: an optional plus sign,
/// then digits and nothing else. The number counts vertices from one, so
/// zero names none, and neither does text that is no number or a number
/// beyond the machine's range.
pub open spec fn vertex_index(word: Seq<u8>) -> Option<usize> {
    let head = word.subrange(0, head_len(word));
    let digits = if head.len() > 0 && head[0] == 0x2B {
        head.subrange(1, head.len() as int)
    } else {
        head
    };
    if digits.len() > 0 && all_digits(digits) && 0 < decimal(digits) <= usize::MAX {
        Some((decimal(digits) - 1) as usize)
    } else {
        None
    }
}

/// The first slash of a word is where no slash comes before and a slash or
/// the word's end stands.
pub proof fn lemma_head_len(word: Seq<u8>, h: int)
    requires
        0 <= h <= word.len(),
        forall|i: int| 0 <= i < h ==> (#[trigger] word[i]) != 0x2F,
        h == word.len() || word[h] == 0x2F,
    ensures
        head_len(word) == h,
    decreases word.len(),
{
    if word.len() == 0 || word[0] == 0x2F {
    } else {
        let rest = word.subrange(1, word.len() as int);
        assert forall|i: int| 0 <= i < h - 1 implies (#[trigger] rest[i]) != 0x2F by {
            assert(rest[i] == word[i + 1]);
        }
        lemma_head_len(rest, h - 1);
    }
}

/// A longer run of digits is worth at least as much as any of its prefixes.
pub proof fn lemma_decimal_grows(digits: Seq<u8>, k: int)
    requires
        all_digits(digits),
        0 <= k <= digits.len(),
    ensures
        decimal(digits.subrange(0, k)) <= decimal(digits),
    decreases digits.len() - k,
{
    if k == digits.len() {
        assert(digits.subrange(0, k) =~= digits);
    } else {
        lemma_decimal_grows(digits, k + 1);
        let longer = digits.subrange(0, k + 1);
        assert(longer.drop_last() =~= digits.subrange(0, k));
        assert(longer.last() == digits[k]);
    }
}

/// Reads the vertex a word of a polygon line names.
pub fn parse_vertex_index(word: &[u8]) -> (index: Option<usize>)
    ensures
        index == vertex_index(word@),
{
    let n: usize = word.len();
    let mut h: usize = 0;
    while h < n && word[h] != 0x2F
        invariant
            n == word@.len(),
            h <= n,
            forall|i: int| 0 <= i < h ==> (#[trigger] word@[i]) != 0x2F,
        decreases n - h,
    {
        h += 1;
    }
    proof {
        lemma_head_len(word@, h as int);
    }
    let first: usize = if h > 0 && word[0] == 0x2B {
        1
    } else {
        0
    };
    let ghost head = word@.subrange(0, h as int);
    let ghost digits = if head.len() > 0 && head[0] == 0x2B {
        head.subrange(1, head.len() as int)
    } else {
        head
    };
    assert(digits =~= word@.subrange(first as int, h as int));
    if first == h {
        return None;
    }
    let mut value: usize = 0;
    let mut i: usize = first;
    while i < h
        invariant
            n == word@.len(),
            first <= i <= h <= n,
            digits == word@.subrange(first as int, h as int),
            vertex_index(word@) == if digits.len() > 0 && all_digits(digits) && 0 < decimal(digits)
                <= usize::MAX {
                Some((decimal(digits) - 1) as usize)
            } else {
                None
            },
            all_digits(digits.subrange(0, i - first)),
            value == decimal(digits.subrange(0, i - first)),
        decreases h - i,
    {
        let b: u8 = word[i];
        proof {
            assert(digits[i - first] == b);
        }
        if b < 0x30 || b > 0x39 {
            assert(!all_digits(digits));
            return None;
        }
        let d: usize = (b - 0x30) as usize;
        proof {
            let longer = digits.subrange(0, i - first + 1);
            assert(longer.drop_last() =~= digits.subrange(0, i - first));
            assert(longer.last() == b);
            assert(all_digits(longer));
            if value > (usize::MAX - d) / 10 {
                assert(decimal(longer) == value * 10 + d);
                assert(decimal(longer) > usize::MAX);
                if all_digits(digits) {
                    lemma_decimal_grows(digits, i - first + 1);
                }
                assert(!(all_digits(digits) && decimal(digits) <= usize::MAX));
            }
        }
        if value > (usize::MAX - d) / 10 {
            return None;
        }
        value = value * 10 + d;
        i += 1;
    }
    assert(digits.subrange(0, h - first) =~= digits);
    if value == 0 {
        None
    } else {
        Some(value - 1)
    }
}

/// The vertices that the words of a polygon line name, in order; words that
/// name none are passed over.
pub open spec fn face_indices(line: Seq<u8>, words: Seq<Span>) -> Seq<usize>
    decreases words.len(),
{
    if words.len() == 0 {
        Seq::empty()
    } else {
        let before = face_indices(line, words.drop_last());
        match vertex_index(words.last().of(line)) {
            Some(i) => before.push(i),
            None => before,
        }
    }
}

/// What one line of the text says.
#[derive(Clone, Debug, PartialEq, Eq)]
pub enum ObjLine {
    /// A vertex; the spans are where its three coordinates are written.
    Vertex { x: Span, y: Span, z: Span },
    /// A polygon of three or more vertices, counted from zero.
    Face { indices: Vec<usize> },
    /// Nothing that a mesh is built from.
    Other,
}

/// What a line says, given its words.
pub open spec fn line_meaning(line: Seq<u8>, words: Seq<Span>, result: ObjLine) -> bool {
    if words.len() >= 4 && words[0].of(line) == seq![0x76u8] {
        result == (ObjLine::Vertex { x: words[1], y: words[2], z: words[3] })
    } else if words.len() >= 1 && words[0].of(line) == seq![0x66u8] && face_indices(
        line,
        words.subrange(1, words.len() as int),
    ).len() >= 3 {
        match result {
            ObjLine::Face { indices } => indices@ == face_indices(
                line,
                words.subrange(1, words.len() as int),
            ),
            _ => false,
        }
    } else {
        result == ObjLine::Other
    }
}

/// Reads one line, already split into words.
pub fn parse_words(line: &[u8], words: &Vec<Span>) -> (result: ObjLine)
    requires
        forall|k: int|
            0 <= k < words@.len() ==> (#[trigger] words@[k]).start <= words@[k].end <= line@.len(),
    ensures
        line_meaning(line@, words@, result),
{
    if words.len() == 0 {
        return ObjLine::Other;
    }
    let head = words[0];
    let single: bool = head.end - head.start == 1;
    if single {
        assert(head.of(line@) =~= seq![line@[head.start as int]]);
    } else {
        assert(head.of(line@).len() != 1);
        assert(seq![0x76u8].len() == 1 && seq![0x66u8].len() == 1);
    }
    if single && line[head.start] == 0x76 {
        assert(head.of(line@) =~= seq![0x76u8]);
        assert(head.of(line@) != seq![0x66u8]) by {
            assert(head.of(line@)[0] != seq![0x66u8][0]);
        }
        if words.len() >= 4 {
            return ObjLine::Vertex { x: words[1], y: words[2], z: words[3] };
        }
        return ObjLine::Other;
    }
    if single && line[head.start] == 0x66 {
        assert(head.of(line@) =~= seq![0x66u8]);
        assert(head.of(line@) != seq![0x76u8]) by {
            assert(head.of(line@)[0] != seq![0x76u8][0]);
        }
        let ghost rest = words@.subrange(1, words@.len() as int);
        let mut indices: Vec<usize> = Vec::new();
        let mut k: usize = 1;
        assert(rest.subrange(0, 0) =~= Seq::<Span>::empty());
        while k < words.len()
            invariant
                1 <= k <= words@.len(),
                rest == words@.subrange(1, words@.len() as int),
                forall|j: int|
                    0 <= j < words@.len() ==> (#[trigger] words@[j]).start <= words@[j].end
                        <= line@.len(),
                indices@ == face_indices(line@, rest.subrange(0, k - 1)),
            decreases words@.len() - k,
        {
            let span = words[k];
            let word = slice_subrange(line, span.start, span.end);
            proof {
                let longer = rest.subrange(0, k as int);
                assert(longer.drop_last() =~= rest.subrange(0, k - 1));
                assert(longer.last() == span);
            }
            match parse_vertex_index(word) {
                Some(i) => {
                    indices.push(i);
                },
                None => {},
            }
            k += 1;
        }
        assert(rest.subrange(0, words@.len() - 1) =~= rest);
        if indices.len() >= 3 {
            return ObjLine::Face { indices };
        }
        return ObjLine::Other;
    }
    assert(head.of(line@) != seq![0x76u8]) by {
        if single {
            assert(head.of(line@)[0] != seq![0x76u8][0]);
        }
    }
    assert(head.of(line@) != seq![0x66u8]) by {
        if single {
            assert(head.of(line@)[0] != seq![0x66u8][0]);
        }
    }
    ObjLine::Other
}

/// Reads one line of a mesh's text.
pub fn parse_line(line: &[u8]) -> (result: (Vec<Span>, ObjLine))
    ensures
        words_of(line@, result.0@),
        line_meaning(line@, result.0@, result.1),
{
    let words = split_words(line);
    let meaning = parse_words(line, &words);
    (words, meaning)
}

} // verus!
