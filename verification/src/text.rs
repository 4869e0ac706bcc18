//! Character sequences: conversion, splitting at a separator, and the
//! removal of trailing white space.
use vstd::prelude::*;
use vstd::slice::slice_subrange;

verus! {

/// `String::push` of the standard library appends the given character to
/// the end of the string and changes nothing else.
pub assume_specification[ String::push ](s: &mut String, ch: char)
    ensures
        final(s)@ == old(s)@.push(ch),
;

/// The characters of `s`, one element each.
pub fn to_chars(s: &str) -> (out: Vec<char>)
    ensures
        out@ == s@,
{
    broadcast use vstd::string::group_string_axioms;

    let mut out: Vec<char> = Vec::new();
    for c in it: s.chars()
        invariant
            it.seq() == s@,
            out@ == s@.take(it.index()),
    {
        out.push(c);
    }
    out
}

/// A string that holds exactly `chars`.
pub fn to_string(chars: &[char]) -> (out: String)
    ensures
        out@ == chars@,
{
    let mut out = String::new();
    let mut i: usize = 0;
    while i < chars.len()
        invariant
            i <= chars.len(),
            out@ == chars@.take(i as int),
        decreases chars.len() - i,
    {
        out.push(chars[i]);
        i += 1;
    }
    out
}

/// The fields of `s` between occurrences of `sep`, in order.
///
/// Reading `s` from the left, each `sep` closes the current field and
/// opens a new, empty one; any other character extends the current field.
/// So a sequence with `n` separators has `n + 1` fields, and the empty
/// sequence has one empty field.
pub open spec fn split(s: Seq<char>, sep: char) -> Seq<Seq<char>>
    decreases s.len(),
{
    if s.len() == 0 {
        seq![Seq::empty()]
    } else {
        let before = split(s.drop_last(), sep);
        if s.last() == sep {
            before.push(Seq::empty())
        } else {
            before.drop_last().push(before.last().push(s.last()))
        }
    }
}

/// The fields written out again with `sep` between neighbours.
pub open spec fn join(fields: Seq<Seq<char>>, sep: char) -> Seq<char>
    decreases fields.len(),
{
    if fields.len() == 0 {
        Seq::empty()
    } else if fields.len() == 1 {
        fields[0]
    } else {
        join(fields.drop_last(), sep).push(sep) + fields.last()
    }
}

/// What each slice of `fields` holds.
pub open spec fn contents(fields: Seq<&[char]>) -> Seq<Seq<char>> {
    fields.map_values(|f: &[char]| f@)
}

/// Splitting never yields an empty list, no field holds the separator,
/// and joining the fields gives the input back. Together these fix the
/// fields of every input.
pub proof fn lemma_split_join(s: Seq<char>, sep: char)
    ensures
        split(s, sep).len() >= 1,
        forall|i: int| 0 <= i < split(s, sep).len() ==> !(#[trigger] split(s, sep)[i]).contains(sep),
        join(split(s, sep), sep) == s,
    decreases s.len(),
{
    if s.len() > 0 {
        let t = s.drop_last();
        let before = split(t, sep);
        let after = split(s, sep);
        lemma_split_join(t, sep);
        if s.last() == sep {
            assert(after.drop_last() == before);
        } else {
            let front = join(before.drop_last(), sep).push(sep);
            let grown = before.last().push(s.last());
            assert(after.drop_last() == before.drop_last());
            assert(front + grown == (front + before.last()).push(s.last()));
            assert(!grown.contains(sep));
        }
        assert forall|i: int| 0 <= i < after.len() implies !(#[trigger] after[i]).contains(sep) by {
            if i < after.len() - 1 {
                assert(after[i] == before[i]);
            }
        }
    }
}

/// A sequence without the separator is its own single field.
pub proof fn lemma_split_without_separator(s: Seq<char>, sep: char)
    requires
        !s.contains(sep),
    ensures
        split(s, sep) == seq![s],
    decreases s.len(),
{
    if s.len() == 0 {
        assert(s == Seq::<char>::empty());
    } else {
        let t = s.drop_last();
        assert forall|i: int| 0 <= i < t.len() implies t[i] != sep by {
            assert(t[i] == s[i]);
        }
        lemma_split_without_separator(t, sep);
        assert(t.push(s.last()) == s);
    }
}

/// There is more than one field exactly if the separator occurs.
pub proof fn lemma_split_len(s: Seq<char>, sep: char)
    ensures
        split(s, sep).len() >= 1,
        split(s, sep).len() == 1 <==> !s.contains(sep),
    decreases s.len(),
{
    if s.len() > 0 {
        let t = s.drop_last();
        lemma_split_len(t, sep);
        if s.last() != sep {
            if s.contains(sep) {
                let k = choose|k: int| 0 <= k < s.len() && s[k] == sep;
                assert(t[k] == sep);
            }
            if t.contains(sep) {
                let k = choose|k: int| 0 <= k < t.len() && t[k] == sep;
                assert(s[k] == sep);
            }
        }
    }
}

/// The fields of `a`, a separator and `b` are the fields of `a` followed
/// by the fields of `b`.
pub proof fn lemma_split_concat(a: Seq<char>, b: Seq<char>, sep: char)
    ensures
        split(a.push(sep) + b, sep) == split(a, sep) + split(b, sep),
    decreases b.len(),
{
    let whole = a.push(sep) + b;
    if b.len() == 0 {
        assert(whole.drop_last() == a);
    } else {
        let shorter = b.drop_last();
        lemma_split_concat(a, shorter, sep);
        lemma_split_join(shorter, sep);
        assert(whole.drop_last() == a.push(sep) + shorter);
        if b.last() != sep {
            let left = split(a, sep);
            let right = split(shorter, sep);
            let grown = right.last().push(b.last());
            assert((left + right.drop_last()).push(grown) == left + right.drop_last().push(grown));
        }
    }
}

/// Splits `chars` at every `sep`. The fields borrow from `chars`.
pub fn split_at_each<'a>(chars: &'a [char], sep: char) -> (fields: Vec<&'a [char]>)
    ensures
        contents(fields@) == split(chars@, sep),
{
    let mut fields: Vec<&'a [char]> = Vec::new();
    let mut start: usize = 0;
    let mut i: usize = 0;
    assert(chars@.take(0) == Seq::<char>::empty());
    while i < chars.len()
        invariant
            start <= i <= chars.len(),
            contents(fields@).push(chars@.subrange(start as int, i as int)) == split(
                chars@.take(i as int),
                sep,
            ),
        decreases chars.len() - i,
    {
        let ghost open = chars@.subrange(start as int, i as int);
        assert(chars@.take(i + 1).drop_last() == chars@.take(i as int));
        if chars[i] == sep {
            fields.push(slice_subrange(chars, start, i));
            start = i + 1;
            assert(chars@.subrange(start as int, i + 1) == Seq::<char>::empty());
        } else {
            assert(chars@.subrange(start as int, i + 1) == open.push(chars@[i as int]));
        }
        i += 1;
    }
    fields.push(slice_subrange(chars, start, i));
    assert(chars@.take(i as int) == chars@);
    fields
}

/// Whether `c` is white space: the code points to which Unicode gives the
/// property `White_Space`.
pub open spec fn is_white_space(c: char) -> bool {
    ||| '\u{9}' <= c <= '\u{d}'
    ||| c == ' '
    ||| c == '\u{85}'
    ||| c == '\u{a0}'
    ||| c == '\u{1680}'
    ||| '\u{2000}' <= c <= '\u{200a}'
    ||| c == '\u{2028}'
    ||| c == '\u{2029}'
    ||| c == '\u{202f}'
    ||| c == '\u{205f}'
    ||| c == '\u{3000}'
}

/// Tells white space from every other character.
pub fn white_space(c: char) -> (yes: bool)
    ensures
        yes == is_white_space(c),
{
    ('\u{9}' <= c && c <= '\u{d}')
        || c == ' '
        || c == '\u{85}'
        || c == '\u{a0}'
        || c == '\u{1680}'
        || ('\u{2000}' <= c && c <= '\u{200a}')
        || c == '\u{2028}'
        || c == '\u{2029}'
        || c == '\u{202f}'
        || c == '\u{205f}'
        || c == '\u{3000}'
}

/// `s` without the white space at its end: the shortest prefix of `s`
/// that is followed by white space only.
pub open spec fn trim_end(s: Seq<char>) -> Seq<char>
    decreases s.len(),
{
    if s.len() > 0 && is_white_space(s.last()) {
        trim_end(s.drop_last())
    } else {
        s
    }
}

/// What `trim_end` keeps is a prefix that does not end in white space,
/// and all that it drops is white space.
pub proof fn lemma_trim_end(s: Seq<char>)
    ensures
        trim_end(s).len() <= s.len(),
        trim_end(s) == s.take(trim_end(s).len() as int),
        trim_end(s).len() > 0 ==> !is_white_space(trim_end(s).last()),
        forall|i: int| trim_end(s).len() <= i < s.len() ==> is_white_space(#[trigger] s[i]),
    decreases s.len(),
{
    if s.len() > 0 && is_white_space(s.last()) {
        let t = s.drop_last();
        lemma_trim_end(t);
        assert forall|i: int| trim_end(s).len() <= i < s.len() implies is_white_space(
            #[trigger] s[i],
        ) by {
            if i < t.len() {
                assert(s[i] == t[i]);
            }
        }
    }
}

/// The part of `chars` before its trailing white space.
pub fn trimmed_end<'a>(chars: &'a [char]) -> (kept: &'a [char])
    ensures
        kept@ == trim_end(chars@),
{
    let mut end: usize = chars.len();
    assert(chars@.take(end as int) == chars@);
    while end > 0 && white_space(chars[end - 1])
        invariant
            end <= chars.len(),
            trim_end(chars@) == trim_end(chars@.take(end as int)),
        decreases end,
    {
        assert(chars@.take(end as int).drop_last() == chars@.take(end - 1));
        end -= 1;
    }
    slice_subrange(chars, 0, end)
}

} // verus!
