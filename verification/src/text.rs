//! Words and white space in a line of characters.

use vstd::prelude::*;

verus! {

/// The characters that separate words: the code points that Unicode lists
/// with the property `White_Space`.
pub open spec fn is_space(c: char) -> bool {
    let u = c as u32;
    ||| 0x09 <= u <= 0x0D
    ||| u == 0x20
    ||| u == 0x85
    ||| u == 0xA0
    ||| u == 0x1680
    ||| 0x2000 <= u <= 0x200A
    ||| u == 0x2028
    ||| u == 0x2029
    ||| u == 0x202F
    ||| u == 0x205F
    ||| u == 0x3000
}

/// The first position at or after `from` that holds no white space, or the
/// length of `s` where only white space follows.
pub open spec fn skip_spaces(s: Seq<char>, from: int) -> int
    decreases s.len() - from,
{
    if 0 <= from < s.len() && is_space(s[from]) {
        skip_spaces(s, from + 1)
    } else {
        from
    }
}

/// The first position at or after `from` that holds white space, or the
/// length of `s` where none follows.
pub open spec fn skip_word(s: Seq<char>, from: int) -> int
    decreases s.len() - from,
{
    if 0 <= from < s.len() && !is_space(s[from]) {
        skip_word(s, from + 1)
    } else {
        from
    }
}

/// Where the first word of `s` starts: the length of `s` where it has none.
pub open spec fn head_start(s: Seq<char>) -> int {
    skip_spaces(s, 0)
}

/// Where the first word of `s` ends.
pub open spec fn head_end(s: Seq<char>) -> int {
    skip_word(s, head_start(s))
}

/// `s` holds a character that is no white space.
pub open spec fn has_word(s: Seq<char>) -> bool {
    head_start(s) < s.len()
}

/// The first word of `s`: its longest run of characters other than white
/// space that only white space precedes. Empty where `s` has no word.
pub open spec fn first_word(s: Seq<char>) -> Seq<char> {
    s.subrange(head_start(s), head_end(s))
}

/// The words of `s` that start at or after `from`, in their order.
pub open spec fn words_from(s: Seq<char>, from: int) -> Seq<Seq<char>>
    decreases s.len() - from,
{
    let start = skip_spaces(s, from);
    if 0 <= from && start < s.len() {
        proof {
            lemma_skip_spaces(s, from);
            lemma_skip_word(s, start);
        }
        let end = skip_word(s, start);
        seq![s.subrange(start, end)] + words_from(s, end)
    } else {
        Seq::empty()
    }
}

/// The words of `s`: its longest runs of characters other than white space.
pub open spec fn words(s: Seq<char>) -> Seq<Seq<char>> {
    words_from(s, 0)
}

/// The words `ws` in a line, one blank between neighbours.
pub open spec fn join(ws: Seq<Seq<char>>) -> Seq<char>
    decreases ws.len(),
{
    if ws.len() == 0 {
        Seq::empty()
    } else if ws.len() == 1 {
        ws[0]
    } else {
        join(ws.drop_last()) + seq![' '] + ws.last()
    }
}

/// `s` without its last word: the words before it, one blank between
/// neighbours. Empty where `s` has one word or none.
pub open spec fn without_last_word(s: Seq<char>) -> Seq<char> {
    if words(s).len() == 0 {
        Seq::empty()
    } else {
        join(words(s).drop_last())
    }
}

/// `s` with the part from `start` up to `end` replaced by `inset`.
pub open spec fn splice(s: Seq<char>, start: int, end: int, inset: Seq<char>) -> Seq<char> {
    s.subrange(0, start) + inset + s.subrange(end, s.len() as int)
}

/// `needle` stands in `s` at position `at`.
pub open spec fn occurs_at(s: Seq<char>, needle: Seq<char>, at: int) -> bool {
    &&& 0 <= at
    &&& at + needle.len() <= s.len()
    &&& s.subrange(at, at + needle.len()) == needle
}

/// Only white space stands before the result of `skip_spaces`, and none at it.
pub proof fn lemma_skip_spaces(s: Seq<char>, from: int)
    requires
        0 <= from <= s.len(),
    ensures
        from <= skip_spaces(s, from) <= s.len(),
        forall|i: int| from <= i < skip_spaces(s, from) ==> is_space(#[trigger] s[i]),
        skip_spaces(s, from) < s.len() ==> !is_space(s[skip_spaces(s, from)]),
    decreases s.len() - from,
{
    if from < s.len() && is_space(s[from]) {
        lemma_skip_spaces(s, from + 1);
    }
}

/// No white space stands before the result of `skip_word`, and some at it.
pub proof fn lemma_skip_word(s: Seq<char>, from: int)
    requires
        0 <= from <= s.len(),
    ensures
        from <= skip_word(s, from) <= s.len(),
        forall|i: int| from <= i < skip_word(s, from) ==> !is_space(#[trigger] s[i]),
        skip_word(s, from) < s.len() ==> is_space(s[skip_word(s, from)]),
        from < s.len() && !is_space(s[from]) ==> from < skip_word(s, from),
    decreases s.len() - from,
{
    if from < s.len() && !is_space(s[from]) {
        lemma_skip_word(s, from + 1);
    }
}

/// Putting a word before a line puts one blank after it, unless the line
/// has no words.
pub proof fn lemma_join_prepend(w: Seq<char>, ws: Seq<Seq<char>>)
    ensures
        join(seq![w] + ws) == if ws.len() == 0 {
            w
        } else {
            w + seq![' '] + join(ws)
        },
    decreases ws.len(),
{
    let all = seq![w] + ws;
    if ws.len() == 0 {
        assert(all =~= seq![w]);
    } else if ws.len() == 1 {
        assert(all.drop_last() =~= seq![w]);
        assert(all.last() == ws[0]);
        assert(join(all.drop_last()) == w);
    } else {
        lemma_join_prepend(w, ws.drop_last());
        assert(all.drop_last() =~= seq![w] + ws.drop_last());
        assert(all.last() == ws.last());
        assert(join(all) =~= w + seq![' '] + join(ws));
    }
}

/// Every word holds a character, and the words after `from`, joined, are no
/// longer than what follows the white space after `from`.
pub proof fn lemma_words_from(s: Seq<char>, from: int)
    requires
        0 <= from <= s.len(),
    ensures
        forall|k: int|
            0 <= k < words_from(s, from).len() ==> (#[trigger] words_from(s, from)[k]).len() > 0,
        join(words_from(s, from)).len() <= s.len() - skip_spaces(s, from),
    decreases s.len() - from,
{
    lemma_skip_spaces(s, from);
    let start = skip_spaces(s, from);
    if start < s.len() {
        lemma_skip_word(s, start);
        let end = skip_word(s, start);
        let word = s.subrange(start, end);
        let rest = words_from(s, end);
        lemma_words_from(s, end);
        lemma_skip_spaces(s, end);
        lemma_join_prepend(word, rest);
        assert forall|k: int| 0 <= k < words_from(s, from).len() implies (#[trigger] words_from(
            s,
            from,
        )[k]).len() > 0 by {
            if k > 0 {
                assert(words_from(s, from)[k] == rest[k - 1]);
            }
        }
        if rest.len() > 0 {
            assert(skip_spaces(s, end) < s.len());
            assert(skip_spaces(s, end) > end);
        }
    }
}

/// A text that holds anything gets shorter when it loses its last word.
pub proof fn lemma_without_last_word_is_shorter(s: Seq<char>)
    requires
        s.len() > 0,
    ensures
        without_last_word(s).len() < s.len(),
{
    let ws = words(s);
    lemma_words_from(s, 0);
    lemma_skip_spaces(s, 0);
    if ws.len() > 0 {
        assert(ws.last().len() > 0);
        if ws.len() > 1 {
            assert(join(ws) == join(ws.drop_last()) + seq![' '] + ws.last());
        } else {
            assert(join(ws.drop_last()).len() == 0);
        }
    }
}

/// White space from `from` up to `to`, and none at `to`: `skip_spaces` stops
/// at `to`.
pub proof fn lemma_skip_spaces_stops(s: Seq<char>, from: int, to: int)
    requires
        0 <= from <= to <= s.len(),
        forall|i: int| from <= i < to ==> is_space(#[trigger] s[i]),
        to < s.len() ==> !is_space(s[to]),
    ensures
        skip_spaces(s, from) == to,
    decreases to - from,
{
    if from < to {
        lemma_skip_spaces_stops(s, from + 1, to);
    }
}

/// No white space from `from` up to `to`, and some at `to`: `skip_word`
/// stops at `to`.
pub proof fn lemma_skip_word_stops(s: Seq<char>, from: int, to: int)
    requires
        0 <= from <= to <= s.len(),
        forall|i: int| from <= i < to ==> !is_space(#[trigger] s[i]),
        to < s.len() ==> is_space(s[to]),
    ensures
        skip_word(s, from) == to,
    decreases to - from,
{
    if from < to {
        lemma_skip_word_stops(s, from + 1, to);
    }
}

/// Where the first word of a text is replaced by a text that has a word,
/// the first word of the result is the first word of the replacement.
pub proof fn lemma_first_word_of_splice(s: Seq<char>, inset: Seq<char>)
    requires
        has_word(s),
        has_word(inset),
    ensures
        has_word(splice(s, head_start(s), head_end(s), inset)),
        first_word(splice(s, head_start(s), head_end(s), inset)) == first_word(inset),
{
    let a = head_start(s);
    let b = head_end(s);
    let a2 = head_start(inset);
    let b2 = head_end(inset);
    let whole = splice(s, a, b, inset);
    lemma_skip_spaces(s, 0);
    lemma_skip_word(s, a);
    lemma_skip_spaces(inset, 0);
    lemma_skip_word(inset, a2);
    assert forall|i: int| 0 <= i < a + a2 implies is_space(#[trigger] whole[i]) by {
        if i < a {
            assert(whole[i] == s[i]);
        } else {
            assert(whole[i] == inset[i - a]);
        }
    }
    assert(whole[a + a2] == inset[a2]);
    lemma_skip_spaces_stops(whole, 0, a + a2);
    assert forall|i: int| a + a2 <= i < a + b2 implies !is_space(#[trigger] whole[i]) by {
        assert(whole[i] == inset[i - a]);
    }
    if b2 < inset.len() {
        assert(whole[a + b2] == inset[b2]);
    } else if a + b2 < whole.len() {
        assert(whole[a + b2] == s[b]);
    }
    lemma_skip_word_stops(whole, a + a2, a + b2);
    assert(whole.subrange(a + a2, a + b2) =~= inset.subrange(a2, b2));
}

/// Tells whether `c` separates words.
pub fn is_whitespace(c: char) -> (b: bool)
    ensures
        b == is_space(c),
{
    let u: u32 = c as u32;
    (0x09 <= u && u <= 0x0D) || u == 0x20 || u == 0x85 || u == 0xA0 || u == 0x1680 || (0x2000 <= u
        && u <= 0x200A) || u == 0x2028 || u == 0x2029 || u == 0x202F || u == 0x205F || u == 0x3000
}

/// The characters of `s`, one element each.
pub fn chars_of(s: &str) -> (v: Vec<char>)
    ensures
        v@ == s@,
{
    let mut v: Vec<char> = Vec::new();
    for c in it: s.chars()
        invariant
            it.seq() == s@,
            v@ =~= s@.take(it.index()),
    {
        v.push(c);
    }
    assert(s@.take(s@.len() as int) =~= s@);
    v
}

/// The first position at or after `from` that holds no white space.
pub fn skip_spaces_at(v: &Vec<char>, from: usize) -> (to: usize)
    requires
        from <= v.len(),
    ensures
        to == skip_spaces(v@, from as int),
        from <= to <= v.len(),
{
    let mut at: usize = from;
    while at < v.len() && is_whitespace(v[at])
        invariant
            from <= at <= v.len(),
            skip_spaces(v@, at as int) == skip_spaces(v@, from as int),
        decreases v.len() - at,
    {
        at += 1;
    }
    at
}

/// The first position at or after `from` that holds white space.
pub fn skip_word_at(v: &Vec<char>, from: usize) -> (to: usize)
    requires
        from <= v.len(),
    ensures
        to == skip_word(v@, from as int),
        from <= to <= v.len(),
{
    let mut at: usize = from;
    while at < v.len() && !is_whitespace(v[at])
        invariant
            from <= at <= v.len(),
            skip_word(v@, at as int) == skip_word(v@, from as int),
        decreases v.len() - at,
    {
        at += 1;
    }
    at
}

/// `bounds` gives, for each word of `s` in turn, where it starts and ends.
pub open spec fn marks_words(bounds: Seq<(usize, usize)>, s: Seq<char>) -> bool {
    &&& bounds.len() == words(s).len()
    &&& forall|k: int|
        0 <= k < bounds.len() ==> {
            &&& (#[trigger] bounds[k]).0 <= bounds[k].1 <= s.len()
            &&& s.subrange(bounds[k].0 as int, bounds[k].1 as int) == words(s)[k]
        }
}

/// Where the words of `v` stand: for each word its start and its end.
pub fn word_bounds(v: &Vec<char>) -> (bounds: Vec<(usize, usize)>)
    ensures
        marks_words(bounds@, v@),
{
    let mut bounds: Vec<(usize, usize)> = Vec::new();
    let mut at: usize = 0;
    let ghost mut found: Seq<Seq<char>> = Seq::empty();
    loop
        invariant
            at <= v.len(),
            found.len() == bounds@.len(),
            words(v@) == found + words_from(v@, at as int),
            forall|k: int|
                0 <= k < bounds@.len() ==> {
                    &&& (#[trigger] bounds@[k]).0 <= bounds@[k].1 <= v@.len()
                    &&& v@.subrange(bounds@[k].0 as int, bounds@[k].1 as int) == found[k]
                },
        decreases v.len() - at,
    {
        let start = skip_spaces_at(v, at);
        if start >= v.len() {
            assert(words_from(v@, at as int) == Seq::<Seq<char>>::empty());
            assert(found + Seq::<Seq<char>>::empty() =~= found);
            return bounds;
        }
        let end = skip_word_at(v, start);
        proof {
            lemma_skip_spaces(v@, at as int);
            lemma_skip_word(v@, start as int);
            let word = v@.subrange(start as int, end as int);
            assert(words_from(v@, at as int) == seq![word] + words_from(v@, end as int));
            assert(found + (seq![word] + words_from(v@, end as int)) =~= found.push(word)
                + words_from(v@, end as int));
            found = found.push(word);
        }
        bounds.push((start, end));
        at = end;
    }
}

/// The part of `s` from `start` up to `end`, as a string of its own.
pub fn substring(s: &str, start: usize, end: usize) -> (part: String)
    requires
        start <= end <= s@.len(),
    ensures
        part@ == s@.subrange(start as int, end as int),
{
    String::from_str(s.substring_char(start, end))
}

/// Appending a word to a line puts one blank before it, unless it is the first.
pub proof fn lemma_join_push(ws: Seq<Seq<char>>, w: Seq<char>)
    ensures
        join(ws.push(w)) == if ws.len() == 0 {
            w
        } else {
            join(ws) + seq![' '] + w
        },
{
    assert(ws.push(w).drop_last() =~= ws);
}

/// The first `count` of the words of `s`, one blank between neighbours.
pub fn join_words(s: &str, bounds: &Vec<(usize, usize)>, count: usize) -> (line: String)
    requires
        marks_words(bounds@, s@),
        count <= bounds@.len(),
    ensures
        line@ == join(words(s@).take(count as int)),
{
    let mut line = String::new();
    let mut k: usize = 0;
    assert(words(s@).take(0) =~= Seq::<Seq<char>>::empty());
    while k < count
        invariant
            marks_words(bounds@, s@),
            k <= count <= bounds@.len(),
            line@ == join(words(s@).take(k as int)),
        decreases count - k,
    {
        let (start, end) = bounds[k];
        proof {
            lemma_join_push(words(s@).take(k as int), words(s@)[k as int]);
            assert(words(s@).take(k as int).push(words(s@)[k as int]) =~= words(s@).take(k + 1));
            reveal_strlit(" ");
            assert(" "@ =~= seq![' ']);
        }
        if k > 0 {
            line.append(" ");
        }
        line.append(s.substring_char(start, end));
        k += 1;
    }
    line
}

/// The words of `s` in a line, one blank between neighbours.
pub fn normalize(s: &str) -> (line: String)
    ensures
        line@ == join(words(s@)),
{
    let chars = chars_of(s);
    let bounds = word_bounds(&chars);
    assert(words(s@).take(bounds@.len() as int) =~= words(s@));
    join_words(s, &bounds, bounds.len())
}

/// `s` without its last word, one blank between the words that are left.
pub fn drop_last_word(s: &str) -> (line: String)
    ensures
        line@ == without_last_word(s@),
{
    let chars = chars_of(s);
    let bounds = word_bounds(&chars);
    if bounds.len() == 0 {
        String::new()
    } else {
        join_words(s, &bounds, bounds.len() - 1)
    }
}

} // verus!
