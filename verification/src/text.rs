//! Splitting a line of qhull's text output into its whitespace-separated
//! fields.
use vstd::prelude::*;

verus! {

broadcast use vstd::string::group_string_axioms;

/// Whether `c` is a Unicode white-space character (the `White_Space`
/// property, which `char::is_whitespace` tests).
pub open spec fn is_white_space(c: char) -> bool {
    let u = c as u32;
    ||| 0x09 <= u <= 0x0d
    ||| u == 0x20
    ||| u == 0x85
    ||| u == 0xa0
    ||| u == 0x1680
    ||| 0x2000 <= u <= 0x200a
    ||| u == 0x2028
    ||| u == 0x2029
    ||| u == 0x202f
    ||| u == 0x205f
    ||| u == 0x3000
}

/// Tests `is_white_space`.
pub fn white_space(c: char) -> (b: bool)
    ensures
        b == is_white_space(c),
{
    let u = c as u32;
    (0x09 <= u && u <= 0x0d) || u == 0x20 || u == 0x85 || u == 0xa0 || u == 0x1680 || (0x2000 <= u
        && u <= 0x200a) || u == 0x2028 || u == 0x2029 || u == 0x202f || u == 0x205f || u == 0x3000
}

/// The maximal runs of non-white-space characters of `s`, in order, read
/// one character at a time: white space ends a word, and a character that
/// is not white space either extends the word just before it or starts a
/// new one.
pub open spec fn words(s: Seq<char>) -> Seq<Seq<char>>
    decreases s.len(),
{
    if s.len() == 0 {
        Seq::empty()
    } else {
        let before = words(s.drop_last());
        let c = s.last();
        if is_white_space(c) {
            before
        } else if s.len() >= 2 && !is_white_space(s[s.len() - 2]) {
            before.update(before.len() - 1, before.last().push(c))
        } else {
            before.push(seq![c])
        }
    }
}

/// The fields of `line`: its words, with the white space around and
/// between them dropped (trimming the line first changes nothing).
pub fn trim_line(line: &str) -> (fields: Vec<&str>)
    ensures
        fields@.map_values(|f: &str| f@) == words(line@),
{
    let mut chars: Vec<char> = Vec::new();
    for c in it: line.chars()
        invariant
            chars@ == it.seq().take(it.index()),
    {
        chars.push(c);
    }
    assert(chars@ == line@);
    let n = chars.len();
    let mut fields: Vec<&str> = Vec::new();
    let mut in_word = false;
    let mut start: usize = 0;
    for i in 0..n
        invariant
            n == chars@.len(),
            chars@ == line@,
            start <= i,
            in_word == (i > 0 && !is_white_space(chars@[i - 1])),
            in_word ==> forall|j: int| start <= j < i ==> !is_white_space(#[trigger] chars@[j]),
            in_word ==> start < i,
            words(chars@.take(i as int)) == fields@.map_values(|f: &str| f@) + (if in_word {
                seq![chars@.subrange(start as int, i as int)]
            } else {
                Seq::empty()
            }),
    {
        let c = chars[i];
        let ghost before = fields@.map_values(|f: &str| f@);
        assert(chars@.take(i + 1).drop_last() =~= chars@.take(i as int));
        assert(chars@.take(i + 1).last() == c);
        if white_space(c) {
            if in_word {
                let field = line.substring_char(start, i);
                fields.push(field);
                assert(fields@.map_values(|f: &str| f@) =~= before.push(chars@.subrange(start as int, i as int)));
            }
            in_word = false;
        } else if in_word {
            assert(chars@.take(i + 1)[i - 1] == chars@[i - 1]);
            assert(chars@.subrange(start as int, i + 1) =~= chars@.subrange(start as int, i as int).push(c));
            assert(words(chars@.take(i + 1)) =~= before + seq![chars@.subrange(start as int, i + 1)]);
        } else {
            start = i;
            in_word = true;
            assert(chars@.subrange(i as int, i + 1) =~= seq![c]);
            assert(i >= 1 ==> chars@.take(i + 1)[i - 1] == chars@[i - 1]);
            assert(words(chars@.take(i + 1)) =~= before + seq![chars@.subrange(i as int, i + 1)]);
        }
    }
    if in_word {
        let ghost before = fields@.map_values(|f: &str| f@);
        let field = line.substring_char(start, n);
        fields.push(field);
        assert(fields@.map_values(|f: &str| f@) =~= before.push(chars@.subrange(start as int, n as int)));
    }
    assert(chars@.take(n as int) =~= chars@);
    fields
}

/// Every field is a non-empty run of characters that are not white space.
pub proof fn lemma_words_have_no_white_space(s: Seq<char>)
    ensures
        forall|k: int|
            0 <= k < words(s).len() ==> (#[trigger] words(s)[k]).len() > 0 && forall|j: int|
                0 <= j < words(s)[k].len() ==> !is_white_space(#[trigger] words(s)[k][j]),
    decreases s.len(),
{
    if s.len() > 0 {
        let rest = s.drop_last();
        lemma_words_have_no_white_space(rest);
        let before = words(rest);
        let c = s.last();
        if !is_white_space(c) && s.len() >= 2 && !is_white_space(s[s.len() - 2]) {
            assert(rest.len() >= 1 && !is_white_space(rest.last()));
            lemma_words_end_with_last(rest);
            let w = words(s);
            assert forall|k: int| 0 <= k < w.len() implies (#[trigger] w[k]).len() > 0 && forall|j: int|
                0 <= j < w[k].len() ==> !is_white_space(#[trigger] w[k][j]) by {
                if k == w.len() - 1 {
                    assert(w[k] == before.last().push(c));
                    assert forall|j: int| 0 <= j < w[k].len() implies !is_white_space(#[trigger] w[k][j]) by {
                        if j < before.last().len() {
                            assert(w[k][j] == before[before.len() - 1][j]);
                        }
                    }
                }
            }
        }
    }
}

/// A line that ends in a character that is not white space has a field,
/// and that character ends the last one.
proof fn lemma_words_end_with_last(s: Seq<char>)
    requires
        s.len() >= 1,
        !is_white_space(s.last()),
    ensures
        words(s).len() >= 1,
    decreases s.len(),
{
    let rest = s.drop_last();
    if s.len() >= 2 && !is_white_space(s[s.len() - 2]) {
        assert(rest.last() == s[s.len() - 2]);
        lemma_words_end_with_last(rest);
    }
}

/// White space added at the end of a line adds no field.
pub proof fn lemma_words_push_white_space(s: Seq<char>, c: char)
    requires
        is_white_space(c),
    ensures
        words(s.push(c)) == words(s),
{
    assert(s.push(c).drop_last() =~= s);
    assert(s.push(c).last() == c);
}

/// A word added after white space (or at the start of a line) becomes one
/// more field.
pub proof fn lemma_words_push_word(s: Seq<char>, w: Seq<char>)
    requires
        s.len() == 0 || is_white_space(s.last()),
        w.len() > 0,
        forall|j: int| 0 <= j < w.len() ==> !is_white_space(#[trigger] w[j]),
    ensures
        words(s + w) == words(s).push(w),
    decreases w.len(),
{
    let c = w.last();
    let rest = w.drop_last();
    assert(w[w.len() - 1] == c);
    assert((s + w).drop_last() =~= s + rest);
    assert((s + w).last() == c);
    if w.len() == 1 {
        assert(s + rest =~= s);
        assert(w =~= seq![c]);
        if s.len() > 0 {
            assert((s + w)[(s + w).len() - 2] == s.last());
        }
    } else {
        assert forall|j: int| 0 <= j < rest.len() implies !is_white_space(#[trigger] rest[j]) by {
            assert(rest[j] == w[j]);
        }
        lemma_words_push_word(s, rest);
        assert((s + w)[(s + w).len() - 2] == rest.last());
        assert(rest[rest.len() - 1] == w[w.len() - 2]);
        assert(rest.push(c) =~= w);
        assert(words(s).push(rest).update(words(s).len() as int, rest.push(c)) =~= words(s).push(w));
    }
}

} // verus!
