//! Text handling for configuration files: splitting, trimming and comparing,
//! on sequences of characters.

use vstd::prelude::*;

verus! {

/// Appends one character, as `String::push` documents: the string afterwards
/// is the string before followed by `ch`.
pub assume_specification[ String::push ](s: &mut String, ch: char)
    ensures
        final(s)@ == old(s)@.push(ch),
;

/// The characters with the Unicode property White_Space.
pub open spec fn is_space(c: char) -> bool {
    ||| '\u{9}' <= c <= '\u{d}'
    ||| c == ' '
    ||| c == '\u{85}'
    ||| c == '\u{a0}'
    ||| c == '\u{1680}'
    ||| '\u{2000}' <= c <= '\u{200a}'
    ||| c == '\u{2028}'
    ||| c == '\u{2029}'
    ||| c == '\u{202f}'
    ||| c == '\u{205f}'
    ||| c == '\u{3000}'
}

/// Whether `c` has the Unicode property White_Space.
pub fn is_whitespace(c: char) -> (r: bool)
    ensures
        r == is_space(c),
{
    ('\u{9}' <= c && c <= '\u{d}') || c == ' ' || c == '\u{85}' || c == '\u{a0}' || c == '\u{1680}'
        || ('\u{2000}' <= c && c <= '\u{200a}') || c == '\u{2028}' || c == '\u{2029}' || c
        == '\u{202f}' || c == '\u{205f}' || c == '\u{3000}'
}

/// The pieces of `s` between occurrences of `sep`. There is always at least
/// one piece; pieces may be empty.
pub open spec fn split_at_char(s: Seq<char>, sep: char) -> Seq<Seq<char>>
    decreases s.len(),
{
    if s.len() == 0 {
        seq![Seq::<char>::empty()]
    } else {
        let pieces = split_at_char(s.drop_last(), sep);
        if s.last() == sep {
            pieces.push(Seq::<char>::empty())
        } else {
            pieces.update(pieces.len() - 1, pieces.last().push(s.last()))
        }
    }
}

/// The maximal runs of non-whitespace characters of `s`, in order.
pub open spec fn words(s: Seq<char>) -> Seq<Seq<char>>
    decreases s.len(),
{
    if s.len() == 0 {
        Seq::<Seq<char>>::empty()
    } else {
        let before = words(s.drop_last());
        if is_space(s.last()) {
            before
        } else if s.len() == 1 || is_space(s[s.len() - 2]) {
            before.push(seq![s.last()])
        } else {
            before.update(before.len() - 1, before.last().push(s.last()))
        }
    }
}

/// The characters behind a list of character slices.
pub open spec fn texts(v: Seq<&[char]>) -> Seq<Seq<char>> {
    Seq::new(v.len(), |i: int| v[i]@)
}

/// `s` as a vector of characters.
pub fn chars_of(s: &str) -> (r: Vec<char>)
    ensures
        r@ == s@,
{
    let mut r: Vec<char> = Vec::new();
    for c in it: s.chars()
        invariant
            it.seq() == s@,
            r@ == s@.take(it.index() as int),
    {
        r.push(c);
    }
    r
}

/// Splits `s` at every occurrence of `sep`.
pub fn split<'a>(s: &'a [char], sep: char) -> (r: Vec<&'a [char]>)
    ensures
        texts(r@) == split_at_char(s@, sep),
        r@.len() >= 1,
{
    let mut r: Vec<&'a [char]> = Vec::new();
    let mut start: usize = 0;
    let mut i: usize = 0;
    proof {
        assert(s@.take(0) =~= Seq::<char>::empty());
        assert(s@.subrange(0, 0) =~= Seq::<char>::empty());
        assert(split_at_char(s@.take(0), sep) =~= texts(r@).push(s@.subrange(0, 0)));
    }
    while i < s.len()
        invariant
            start <= i <= s@.len(),
            split_at_char(s@.take(i as int), sep) == texts(r@).push(
                s@.subrange(start as int, i as int),
            ),
        decreases s@.len() - i,
    {
        let ghost before = texts(r@);
        let ghost piece = s@.subrange(start as int, i as int);
        proof {
            assert(s@.take(i as int + 1).drop_last() =~= s@.take(i as int));
            assert(s@.take(i as int + 1).last() == s@[i as int]);
            assert(before.push(piece).last() == piece);
        }
        if s[i] == sep {
            r.push(vstd::slice::slice_subrange(s, start, i));
            start = i + 1;
            proof {
                assert(texts(r@) =~= before.push(piece));
                assert(s@.subrange(i as int + 1, i as int + 1) =~= Seq::<char>::empty());
            }
        } else {
            proof {
                assert(s@.subrange(start as int, i as int + 1) =~= piece.push(s@[i as int]));
                assert(before.push(piece).update(before.len() as int, piece.push(s@[i as int]))
                    =~= before.push(piece.push(s@[i as int])));
            }
        }
        i = i + 1;
    }
    proof {
        assert(s@.take(s@.len() as int) =~= s@);
    }
    let ghost before = texts(r@);
    r.push(vstd::slice::slice_subrange(s, start, s.len()));
    proof {
        assert(texts(r@) =~= before.push(s@.subrange(start as int, s@.len() as int)));
    }
    r
}

/// Splits `s` into its whitespace-separated words.
pub fn split_whitespace<'a>(s: &'a [char]) -> (r: Vec<&'a [char]>)
    ensures
        texts(r@) == words(s@),
{
    let mut r: Vec<&'a [char]> = Vec::new();
    let mut start: usize = 0;
    let mut i: usize = 0;
    proof {
        assert(texts(r@) =~= words(s@.take(0)));
    }
    // A word is open exactly when `start < i`; it then reaches up to `i`.
    while i < s.len()
        invariant
            start <= i <= s@.len(),
            (start < i) == (i > 0 && !is_space(s@[i - 1])),
            words(s@.take(i as int)) == if start < i {
                texts(r@).push(s@.subrange(start as int, i as int))
            } else {
                texts(r@)
            },
        decreases s@.len() - i,
    {
        let ghost before = texts(r@);
        let ghost piece = s@.subrange(start as int, i as int);
        proof {
            let t = s@.take(i as int + 1);
            assert(t.drop_last() =~= s@.take(i as int));
            assert(t.last() == s@[i as int]);
            if i > 0 {
                assert(t[t.len() - 2] == s@[i - 1]);
            }
        }
        if is_whitespace(s[i]) {
            if start < i {
                r.push(vstd::slice::slice_subrange(s, start, i));
                proof {
                    assert(texts(r@) =~= before.push(piece));
                }
            }
            start = i + 1;
        } else {
            proof {
                assert(s@.subrange(start as int, i as int + 1) =~= piece.push(s@[i as int]));
                if start < i {
                    assert(before.push(piece).last() == piece);
                    assert(before.push(piece).update(before.len() as int, piece.push(s@[i as int]))
                        =~= before.push(piece.push(s@[i as int])));
                } else {
                    assert(piece.push(s@[i as int]) =~= seq![s@[i as int]]);
                }
            }
        }
        i = i + 1;
    }
    proof {
        assert(s@.take(s@.len() as int) =~= s@);
    }
    if start < i {
        let ghost before = texts(r@);
        r.push(vstd::slice::slice_subrange(s, start, i));
        proof {
            assert(texts(r@) =~= before.push(s@.subrange(start as int, i as int)));
        }
    }
    r
}

/// `s` without its leading whitespace.
pub open spec fn trim_start(s: Seq<char>) -> Seq<char>
    decreases s.len(),
{
    if s.len() > 0 && is_space(s[0]) {
        trim_start(s.drop_first())
    } else {
        s
    }
}

/// `s` without its trailing whitespace.
pub open spec fn trim_end(s: Seq<char>) -> Seq<char>
    decreases s.len(),
{
    if s.len() > 0 && is_space(s.last()) {
        trim_end(s.drop_last())
    } else {
        s
    }
}

/// `s` without leading and trailing whitespace.
pub open spec fn trimmed(s: Seq<char>) -> Seq<char> {
    trim_end(trim_start(s))
}

/// Strips leading and trailing whitespace.
pub fn trim<'a>(s: &'a [char]) -> (r: &'a [char])
    ensures
        r@ == trimmed(s@),
{
    let mut start: usize = 0;
    let mut end: usize = s.len();
    proof {
        assert(s@.subrange(0, s@.len() as int) =~= s@);
    }
    while start < end && is_whitespace(s[start])
        invariant
            start <= end == s@.len(),
            trim_start(s@) == trim_start(s@.subrange(start as int, end as int)),
        decreases end - start,
    {
        proof {
            assert(s@.subrange(start as int, end as int).drop_first() =~= s@.subrange(
                start as int + 1,
                end as int,
            ));
        }
        start = start + 1;
    }
    while start < end && is_whitespace(s[end - 1])
        invariant
            start <= end <= s@.len(),
            trimmed(s@) == trim_end(s@.subrange(start as int, end as int)),
        decreases end - start,
    {
        proof {
            assert(s@.subrange(start as int, end as int).drop_last() =~= s@.subrange(
                start as int,
                end as int - 1,
            ));
        }
        end = end - 1;
    }
    vstd::slice::slice_subrange(s, start, end)
}

/// Whether `s` spells `text`.
pub fn is_text(s: &[char], text: &str) -> (r: bool)
    ensures
        r == (s@ == text@),
{
    if s.len() != text.unicode_len() {
        return false;
    }
    let mut i: usize = 0;
    while i < s.len()
        invariant
            i <= s@.len() == text@.len(),
            s@.take(i as int) == text@.take(i as int),
        decreases s@.len() - i,
    {
        if s[i] != text.get_char(i) {
            return false;
        }
        proof {
            assert(s@.take(i as int + 1) =~= s@.take(i as int).push(s@[i as int]));
            assert(text@.take(i as int + 1) =~= text@.take(i as int).push(text@[i as int]));
        }
        i = i + 1;
    }
    proof {
        assert(s@.take(s@.len() as int) =~= s@);
        assert(text@.take(text@.len() as int) =~= text@);
    }
    true
}

/// Whether `a` and `b` spell the same text.
pub fn same_text(a: &str, b: &str) -> (r: bool)
    ensures
        r == (a@ == b@),
{
    let chars: Vec<char> = chars_of(a);
    is_text(chars.as_slice(), b)
}

/// What follows `prefix` in `s`, if `s` starts with it.
pub open spec fn after_prefix(s: Seq<char>, prefix: Seq<char>) -> Option<Seq<char>> {
    if prefix.is_prefix_of(s) {
        Some(s.skip(prefix.len() as int))
    } else {
        None
    }
}

/// The rest of `s` behind `prefix`, if `s` starts with it.
pub fn strip_prefix<'a>(s: &'a [char], prefix: &str) -> (r: Option<&'a [char]>)
    ensures
        r matches Some(rest) ==> after_prefix(s@, prefix@) == Some(rest@),
        r is None ==> after_prefix(s@, prefix@) is None,
{
    let n: usize = prefix.unicode_len();
    if s.len() < n {
        return None;
    }
    if is_text(vstd::slice::slice_subrange(s, 0, n), prefix) {
        proof {
            assert(s@.subrange(0, n as int) =~= s@.take(n as int));
            assert(s@.subrange(n as int, s@.len() as int) =~= s@.skip(n as int));
        }
        Some(vstd::slice::slice_subrange(s, n, s.len()))
    } else {
        None
    }
}

/// Whether `c` occurs in `s`.
pub fn contains_char(s: &[char], c: char) -> (r: bool)
    ensures
        r == s@.contains(c),
{
    let mut i: usize = 0;
    while i < s.len()
        invariant
            i <= s@.len(),
            forall|j: int| 0 <= j < i ==> s@[j] != c,
        decreases s@.len() - i,
    {
        if s[i] == c {
            return true;
        }
        i = i + 1;
    }
    false
}

/// `s` as a string.
pub fn string_of(s: &[char]) -> (r: String)
    ensures
        r@ == s@,
{
    let mut r: String = String::new();
    let mut i: usize = 0;
    while i < s.len()
        invariant
            i <= s@.len(),
            r@ == s@.take(i as int),
        decreases s@.len() - i,
    {
        r.push(s[i]);
        i = i + 1;
        proof {
            assert(s@.take(i as int) =~= s@.take(i - 1).push(s@[i - 1]));
        }
    }
    proof {
        assert(s@.take(s@.len() as int) =~= s@);
    }
    r
}

/// A text without separators is a single piece.
pub proof fn unseparated_text_is_one_piece(s: Seq<char>, sep: char)
    requires
        !s.contains(sep),
    ensures
        split_at_char(s, sep) == seq![s],
    decreases s.len(),
{
    if s.len() > 0 {
        let front = s.drop_last();
        assert forall|i: int| 0 <= i < front.len() implies front[i] != sep by {
            assert(s[i] != sep);
        }
        unseparated_text_is_one_piece(front, sep);
        assert(s.contains(s.last()));
        assert(front.push(s.last()) =~= s);
    } else {
        assert(s =~= Seq::<char>::empty());
    }
    assert(split_at_char(s, sep) =~= seq![s]);
}

/// The pieces of two texts with a separator between them are the pieces of the
/// one followed by the pieces of the other.
pub proof fn separator_separates(a: Seq<char>, sep: char, b: Seq<char>)
    ensures
        split_at_char(a.push(sep) + b, sep) == split_at_char(a, sep) + split_at_char(b, sep),
    decreases b.len(),
{
    let whole = a.push(sep) + b;
    lemma_split_not_empty(b, sep);
    if b.len() == 0 {
        assert(whole =~= a.push(sep));
        assert(a.push(sep).drop_last() =~= a);
        assert(split_at_char(whole, sep) =~= split_at_char(a, sep) + split_at_char(b, sep));
    } else {
        separator_separates(a, sep, b.drop_last());
        lemma_split_not_empty(b.drop_last(), sep);
        assert(whole.drop_last() =~= a.push(sep) + b.drop_last());
        assert(split_at_char(whole, sep) =~= split_at_char(a, sep) + split_at_char(b, sep));
    }
}

/// There is always at least one piece.
pub proof fn lemma_split_not_empty(s: Seq<char>, sep: char)
    ensures
        split_at_char(s, sep).len() >= 1,
    decreases s.len(),
{
    if s.len() > 0 {
        lemma_split_not_empty(s.drop_last(), sep);
    }
}

/// Whitespace between two texts separates their words.
pub proof fn whitespace_separates_words(a: Seq<char>, c: char, b: Seq<char>)
    requires
        is_space(c),
    ensures
        words(a.push(c) + b) == words(a) + words(b),
    decreases b.len(),
{
    let whole = a.push(c) + b;
    if b.len() == 0 {
        assert(whole =~= a.push(c));
        assert(whole.drop_last() =~= a);
        assert(words(a) + words(b) =~= words(a));
    } else {
        let front = b.drop_last();
        whitespace_separates_words(a, c, front);
        assert(whole.drop_last() =~= a.push(c) + front);
        assert(whole.last() == b.last());
        if !is_space(b.last()) {
            if b.len() == 1 {
                assert(whole[whole.len() - 2] == c);
                assert(words(front) =~= Seq::<Seq<char>>::empty());
            } else {
                assert(whole[whole.len() - 2] == b[b.len() - 2]);
                if !is_space(b[b.len() - 2]) {
                    lemma_open_word(front);
                }
            }
        }
        assert(words(whole) =~= words(a) + words(b));
    }
}

/// A text that does not end in whitespace ends in a word.
proof fn lemma_open_word(s: Seq<char>)
    requires
        s.len() > 0,
        !is_space(s.last()),
    ensures
        words(s).len() > 0,
    decreases s.len(),
{
    if s.len() > 1 && !is_space(s[s.len() - 2]) {
        lemma_open_word(s.drop_last());
    }
}

/// A text without whitespace is one word, unless it is empty: then it is none.
pub proof fn text_without_whitespace_is_one_word(s: Seq<char>)
    requires
        forall|i: int| 0 <= i < s.len() ==> !is_space(#[trigger] s[i]),
    ensures
        words(s) == if s.len() == 0 {
            Seq::<Seq<char>>::empty()
        } else {
            seq![s]
        },
    decreases s.len(),
{
    if s.len() > 0 {
        let front = s.drop_last();
        assert forall|i: int| 0 <= i < front.len() implies !is_space(#[trigger] front[i]) by {
            assert(front[i] == s[i]);
        }
        text_without_whitespace_is_one_word(front);
        assert(!is_space(s[s.len() - 1]));
        if s.len() > 1 {
            assert(!is_space(s[s.len() - 2]));
            assert(front.push(s.last()) =~= s);
        } else {
            assert(seq![s.last()] =~= s);
        }
        assert(words(s) =~= seq![s]);
    } else {
        assert(words(s) =~= Seq::<Seq<char>>::empty());
    }
}

/// Trimming takes whitespace away from both ends, all of it and nothing else:
/// a text without whitespace at its ends comes back from between whitespace.
pub proof fn trimming_strips_surrounding_whitespace(
    before: Seq<char>,
    s: Seq<char>,
    after: Seq<char>,
)
    requires
        forall|i: int| 0 <= i < before.len() ==> is_space(#[trigger] before[i]),
        forall|i: int| 0 <= i < after.len() ==> is_space(#[trigger] after[i]),
        s.len() > 0 ==> !is_space(s[0]) && !is_space(s.last()),
    ensures
        trimmed(before + s + after) == s,
{
    lemma_trim_start(before, s + after);
    assert(before + s + after =~= before + (s + after));
    if s.len() > 0 {
        assert((s + after)[0] == s[0]);
        lemma_trim_end(s, after);
    } else {
        assert(s + after =~= after);
        lemma_trim_start(after, Seq::<char>::empty());
        assert(after + Seq::<char>::empty() =~= after);
        assert(s =~= Seq::<char>::empty());
        if before.len() > 0 || after.len() > 0 {
            assert(trim_start(after) == Seq::<char>::empty());
        }
    }
}

/// Leading whitespace does not matter to what is left without it.
pub proof fn lemma_trim_start(before: Seq<char>, s: Seq<char>)
    requires
        forall|i: int| 0 <= i < before.len() ==> is_space(#[trigger] before[i]),
    ensures
        trim_start(before + s) == trim_start(s),
    decreases before.len(),
{
    if before.len() == 0 {
        assert(before + s =~= s);
    } else {
        let rest = before.drop_first();
        assert forall|i: int| 0 <= i < rest.len() implies is_space(#[trigger] rest[i]) by {
            assert(rest[i] == before[i + 1]);
        }
        assert(is_space(before[0]));
        assert((before + s).drop_first() =~= rest + s);
        lemma_trim_start(rest, s);
    }
}

/// Trailing whitespace is taken away, and no more.
proof fn lemma_trim_end(s: Seq<char>, after: Seq<char>)
    requires
        forall|i: int| 0 <= i < after.len() ==> is_space(#[trigger] after[i]),
        s.len() > 0,
        !is_space(s.last()),
    ensures
        trim_end(s + after) == s,
    decreases after.len(),
{
    if after.len() == 0 {
        assert(s + after =~= s);
    } else {
        let rest = after.drop_last();
        assert forall|i: int| 0 <= i < rest.len() implies is_space(#[trigger] rest[i]) by {
            assert(rest[i] == after[i]);
        }
        assert(is_space(after[after.len() - 1]));
        assert((s + after).drop_last() =~= s + rest);
        lemma_trim_end(s, rest);
    }
}

/// What follows a prefix is what was put behind it, and nothing follows a
/// prefix that a text does not start with.
pub proof fn prefix_and_rest_make_the_text(s: Seq<char>, prefix: Seq<char>, rest: Seq<char>)
    ensures
        after_prefix(s, prefix) == Some(rest) <==> s == prefix + rest,
{
    if s == prefix + rest {
        assert(s.skip(prefix.len() as int) =~= rest);
        assert(prefix =~= s.take(prefix.len() as int));
    }
    if after_prefix(s, prefix) == Some(rest) {
        assert(s =~= prefix + rest);
    }
}

/// Pieces with a separator between every two of them.
pub open spec fn rejoined(pieces: Seq<Seq<char>>, sep: char) -> Seq<char>
    decreases pieces.len(),
{
    if pieces.len() == 0 {
        Seq::empty()
    } else if pieces.len() == 1 {
        pieces[0]
    } else {
        rejoined(pieces.drop_last(), sep).push(sep) + pieces.last()
    }
}

/// The pieces of a text, with the separator between them, are the text.
pub proof fn pieces_rejoin(s: Seq<char>, sep: char)
    ensures
        rejoined(split_at_char(s, sep), sep) == s,
    decreases s.len(),
{
    let p = split_at_char(s, sep);
    lemma_split_not_empty(s, sep);
    if s.len() > 0 {
        let front = s.drop_last();
        let q = split_at_char(front, sep);
        pieces_rejoin(front, sep);
        lemma_split_not_empty(front, sep);
        if s.last() == sep {
            assert(p.drop_last() =~= q);
            assert(rejoined(p, sep) =~= s);
        } else {
            assert(p.drop_last() =~= q.drop_last());
            assert(p.last() == q.last().push(s.last()));
            assert(rejoined(p, sep) =~= rejoined(q, sep).push(s.last()));
            assert(front.push(s.last()) =~= s);
        }
    } else {
        assert(p[0] =~= s);
    }
}

} // verus!
