//! The string preprocessing `RichText` does before shaping: CSS
//! `text-transform` and CSS `white-space: normal` collapsing, with span byte
//! ranges carried through the collapse.

use std::ops::Range;

use vstd::prelude::*;
use vstd::utf8::{encode_scalar, encode_utf8};

verus! {

/// CSS `text-transform`, applied as pre-shaping string rewriting.
#[derive(Clone, Copy, PartialEq, Debug, Default)]
pub enum TextTransform {
    /// CSS `none`: the text is left as written.
    #[default]
    NoTransform,
    Uppercase,
    Lowercase,
    Capitalize,
}

/// CSS `white-space` collapsing behaviour: `Normal` collapses every run of
/// whitespace into one space, `Pre` keeps the text as written.
#[derive(Clone, Copy, PartialEq, Debug, Default)]
pub enum WhiteSpace {
    #[default]
    Normal,
    Pre,
}

/// Whether `c` has the Unicode `White_Space` property, the set
/// `char::is_whitespace` reports: tab through carriage return, space, next
/// line, no-break space, ogham space mark, the en quad through hair space,
/// the line and paragraph separators, the narrow no-break space, the medium
/// mathematical space and the ideographic space.
pub open spec fn unicode_white_space(c: char) -> bool {
    let u = c as u32;
    ||| 0x9 <= u <= 0xD
    ||| u == 0x20
    ||| u == 0x85
    ||| u == 0xA0
    ||| u == 0x1680
    ||| 0x2000 <= u <= 0x200A
    ||| u == 0x2028
    ||| u == 0x2029
    ||| u == 0x202F
    ||| u == 0x205F
    ||| u == 0x3000
}

/// The Unicode default uppercase mapping of a string, as `str::to_uppercase`
/// computes it.
pub uninterp spec fn unicode_uppercase(s: Seq<char>) -> Seq<char>;

/// The Unicode default lowercase mapping of a string, as `str::to_lowercase`
/// computes it.
pub uninterp spec fn unicode_lowercase(s: Seq<char>) -> Seq<char>;

/// The characters of the Unicode default uppercase mapping of one character,
/// as `char::to_uppercase` yields them.
pub uninterp spec fn unicode_char_uppercase(c: char) -> Seq<char>;

/// Whether `c` is whitespace in the sense of `char::is_whitespace`.
fn is_whitespace(c: char) -> (r: bool)
    ensures
        r == unicode_white_space(c),
{
    let u = c as u32;
    (0x9 <= u && u <= 0xD) || u == 0x20 || u == 0x85 || u == 0xA0 || u == 0x1680 || (0x2000 <= u
        && u <= 0x200A) || u == 0x2028 || u == 0x2029 || u == 0x202F || u == 0x205F || u == 0x3000
}

/// `str::to_uppercase`: the Unicode default uppercase mapping of `s`.
#[verifier::external_body]
fn to_uppercase(s: &str) -> (r: String)
    ensures
        r@ == unicode_uppercase(s@),
{
    s.to_uppercase()
}

/// `str::to_lowercase`: the Unicode default lowercase mapping of `s`.
#[verifier::external_body]
fn to_lowercase(s: &str) -> (r: String)
    ensures
        r@ == unicode_lowercase(s@),
{
    s.to_lowercase()
}

/// `char::to_uppercase`: the characters `c` maps to in uppercase, collected
/// into a `String`.
#[verifier::external_body]
fn char_to_uppercase(c: char) -> (r: String)
    ensures
        r@ == unicode_char_uppercase(c),
{
    c.to_uppercase().collect()
}

/// `String::push`: appends `c` to the end of `s`.
#[verifier::external_body]
fn push_char(s: &mut String, c: char)
    ensures
        final(s)@ == old(s)@.push(c),
{
    s.push(c)
}

/// The number of bytes `c` takes encoded in UTF-8, as `char::len_utf8`
/// gives it.
fn len_utf8(c: char) -> (r: usize)
    ensures
        r == encode_utf8(seq![c]).len(),
{
    proof {
        lemma_char_width(c);
    }
    let u = c as u32;
    if u <= 0x7F {
        1
    } else if u <= 0x7FF {
        2
    } else if u <= 0xFFFF {
        3
    } else {
        4
    }
}

/// The length in bytes of the UTF-8 encoding of `s`.
pub open spec fn utf8_len(s: Seq<char>) -> nat {
    encode_utf8(s).len()
}

/// The byte offset at which character `i` of `s` starts.
pub open spec fn byte_offset(s: Seq<char>, i: int) -> nat {
    utf8_len(s.take(i))
}

/// CSS `white-space: normal` collapsing: every maximal run of whitespace
/// becomes a single space. Leading and trailing runs are kept as one space.
pub open spec fn collapse_white_space(s: Seq<char>) -> Seq<char>
    decreases s.len(),
{
    if s.len() == 0 {
        Seq::empty()
    } else {
        let init = s.drop_last();
        let c = s.last();
        if unicode_white_space(c) {
            if init.len() > 0 && unicode_white_space(init.last()) {
                collapse_white_space(init)
            } else {
                collapse_white_space(init).push(' ')
            }
        } else {
            collapse_white_space(init).push(c)
        }
    }
}

/// Whether a word would start at the end of `s`: at its very start, or right
/// after whitespace.
pub open spec fn at_word_start(s: Seq<char>) -> bool {
    s.len() == 0 || unicode_white_space(s.last())
}

/// CSS `text-transform: capitalize`: the first character of every word is
/// uppercased, where a word starts at the beginning or after whitespace.
pub open spec fn capitalize(s: Seq<char>) -> Seq<char>
    decreases s.len(),
{
    if s.len() == 0 {
        Seq::empty()
    } else {
        let init = s.drop_last();
        let c = s.last();
        if !unicode_white_space(c) && at_word_start(init) {
            capitalize(init) + unicode_char_uppercase(c)
        } else {
            capitalize(init).push(c)
        }
    }
}

/// What `text-transform` turns `s` into.
pub open spec fn transformed(s: Seq<char>, transform: TextTransform) -> Seq<char> {
    match transform {
        TextTransform::NoTransform => s,
        TextTransform::Uppercase => unicode_uppercase(s),
        TextTransform::Lowercase => unicode_lowercase(s),
        TextTransform::Capitalize => capitalize(s),
    }
}

/// Capitalizing changes a character only where a word starts: appending a
/// character to text that ends inside a word, or appending whitespace
/// anywhere, appends that character unchanged; appending a non-whitespace
/// character at the very start or right after whitespace appends its
/// uppercase form. A letter after an apostrophe or a hyphen is inside a word.
pub proof fn lemma_capitalize_changes_only_word_starts(s: Seq<char>, c: char)
    ensures
        s.len() > 0 && !unicode_white_space(s.last()) ==> transformed(
            s.push(c),
            TextTransform::Capitalize,
        ) == transformed(s, TextTransform::Capitalize).push(c),
        unicode_white_space(c) ==> transformed(s.push(c), TextTransform::Capitalize) == transformed(
            s,
            TextTransform::Capitalize,
        ).push(c),
        (s.len() == 0 || unicode_white_space(s.last())) && !unicode_white_space(c) ==> transformed(
            s.push(c),
            TextTransform::Capitalize,
        ) == transformed(s, TextTransform::Capitalize) + unicode_char_uppercase(c),
{
    assert(s.push(c).drop_last() =~= s);
    assert(s.push(c).last() == c);
}

/// Whether some prefix of `s` of fewer than `upto` characters ends exactly at
/// byte `k`.
pub open spec fn is_boundary_below(s: Seq<char>, k: int, upto: int) -> bool {
    exists|i: int| 0 <= i < upto && i <= s.len() && byte_offset(s, i) == k
}

/// Where byte offset `k` of `s` lands once `s` is collapsed, considering only
/// character boundaries before character `upto`; offsets that are not such a
/// boundary map to 0.
pub open spec fn remap_below(s: Seq<char>, k: int, upto: int) -> nat {
    if is_boundary_below(s, k, upto) {
        utf8_len(
            collapse_white_space(
                s.take(choose|i: int| 0 <= i < upto && i <= s.len() && byte_offset(s, i) == k),
            ),
        )
    } else {
        0
    }
}

/// Where byte offset `k` of `s` lands once `s` is collapsed: a character
/// boundary maps to the length of the collapsed prefix before it, anything
/// else to 0.
pub open spec fn remapped_offset(s: Seq<char>, k: int) -> nat {
    remap_below(s, k, s.len() + 1int)
}

/// The encoding of a concatenation is the concatenation of the encodings.
pub proof fn lemma_encode_utf8_concat(a: Seq<char>, b: Seq<char>)
    ensures
        encode_utf8(a + b) == encode_utf8(a) + encode_utf8(b),
    decreases a.len(),
{
    if a.len() == 0 {
        assert(a + b =~= b);
        assert(encode_utf8(a) =~= Seq::<u8>::empty());
        assert(encode_utf8(a) + encode_utf8(b) =~= encode_utf8(b));
    } else {
        assert((a + b).drop_first() =~= a.drop_first() + b);
        lemma_encode_utf8_concat(a.drop_first(), b);
        assert(encode_utf8(a + b) =~= encode_utf8(a) + encode_utf8(b));
    }
}

/// Every character takes between one and four bytes.
pub proof fn lemma_char_width(c: char)
    ensures
        1 <= utf8_len(seq![c]) <= 4,
        utf8_len(seq![c]) == encode_scalar(c as u32).len(),
{
    let one = seq![c];
    assert(one[0] == c);
    assert(one.drop_first() =~= Seq::<char>::empty());
    assert(encode_utf8(Seq::<char>::empty()) =~= Seq::<u8>::empty());
    assert(encode_utf8(one) == encode_scalar(c as u32) + encode_utf8(one.drop_first()));
    assert(encode_utf8(one) =~= encode_scalar(c as u32));
}

/// The byte offset of the character after `i` is the offset of `i` plus its
/// width.
pub proof fn lemma_byte_offset_step(s: Seq<char>, i: int)
    requires
        0 <= i < s.len(),
    ensures
        byte_offset(s, i + 1) == byte_offset(s, i) + utf8_len(seq![s[i]]),
        byte_offset(s, i) < byte_offset(s, i + 1),
{
    assert(s.take(i + 1) =~= s.take(i) + seq![s[i]]);
    lemma_encode_utf8_concat(s.take(i), seq![s[i]]);
    lemma_char_width(s[i]);
}

/// Character boundaries are strictly increasing byte offsets, ending at the
/// length of the encoding.
pub proof fn lemma_byte_offset_monotone(s: Seq<char>, i: int, j: int)
    requires
        0 <= i < j <= s.len(),
    ensures
        byte_offset(s, i) < byte_offset(s, j),
    decreases j - i,
{
    lemma_byte_offset_step(s, j - 1);
    if i < j - 1 {
        lemma_byte_offset_monotone(s, i, j - 1);
    }
}

/// No character boundary lies past the end of the encoding.
pub proof fn lemma_byte_offset_bound(s: Seq<char>, j: int)
    requires
        0 <= j <= s.len(),
    ensures
        byte_offset(s, j) <= utf8_len(s),
        byte_offset(s, s.len() as int) == utf8_len(s),
{
    assert(s.take(s.len() as int) =~= s);
    if j < s.len() {
        lemma_byte_offset_monotone(s, j, s.len() as int);
    }
}

/// Two characters of `s` never start at the same byte.
pub proof fn lemma_byte_offset_injective(s: Seq<char>, i: int, j: int)
    requires
        0 <= i <= s.len(),
        0 <= j <= s.len(),
        byte_offset(s, i) == byte_offset(s, j),
    ensures
        i == j,
{
    if i < j {
        lemma_byte_offset_monotone(s, i, j);
    } else if j < i {
        lemma_byte_offset_monotone(s, j, i);
    }
}

/// Apply CSS `text-transform` to `s`. Locale-independent: the upper- and
/// lowercase mappings are Unicode's default ones.
pub fn apply_text_transform(s: &str, transform: TextTransform) -> (r: String)
    ensures
        r@ == transformed(s@, transform),
{
    match transform {
        TextTransform::NoTransform => s.to_owned(),
        TextTransform::Uppercase => to_uppercase(s),
        TextTransform::Lowercase => to_lowercase(s),
        TextTransform::Capitalize => {
            let mut result = String::new();
            let mut at_word_start_now = true;
            for c in it: s.chars()
                invariant
                    it.seq() == s@,
                    result@ == capitalize(s@.take(it.index() as int)),
                    at_word_start_now == at_word_start(s@.take(it.index() as int)),
            {
                let ghost i = it.index() as int;
                proof {
                    assert(s@.take(i + 1).drop_last() =~= s@.take(i));
                    assert(s@.take(i + 1).last() == c);
                }
                if is_whitespace(c) {
                    at_word_start_now = true;
                    push_char(&mut result, c);
                } else if at_word_start_now {
                    let upper = char_to_uppercase(c);
                    result.append(upper.as_str());
                    at_word_start_now = false;
                } else {
                    push_char(&mut result, c);
                }
            }
            proof {
                assert(s@.take(s@.len() as int) =~= s@);
            }
            result
        },
    }
}


/// Appending one character adds its width to the encoded length.
pub proof fn lemma_utf8_len_push(s: Seq<char>, c: char)
    ensures
        utf8_len(s.push(c)) == utf8_len(s) + utf8_len(seq![c]),
{
    assert(s.push(c) =~= s + seq![c]);
    lemma_encode_utf8_concat(s, seq![c]);
}

/// Collapsing never makes the encoding longer: a kept character keeps its
/// width, and a run of whitespace becomes one single-byte space.
pub proof fn lemma_collapse_shrinks(s: Seq<char>)
    ensures
        utf8_len(collapse_white_space(s)) <= utf8_len(s),
    decreases s.len(),
{
    if s.len() > 0 {
        let init = s.drop_last();
        let c = s.last();
        lemma_collapse_shrinks(init);
        assert(init.push(c) =~= s);
        lemma_utf8_len_push(init, c);
        lemma_char_width(c);
        lemma_utf8_len_push(collapse_white_space(init), c);
        lemma_utf8_len_push(collapse_white_space(init), ' ');
        lemma_char_width(' ');
    }
}

/// Adding the boundary of character `i` to the ones already considered maps
/// exactly byte `byte_offset(s, i)` and leaves every other offset alone.
pub proof fn lemma_remap_step(s: Seq<char>, i: int, k: int)
    requires
        0 <= i <= s.len(),
    ensures
        remap_below(s, k, i + 1) == if k == byte_offset(s, i) {
            utf8_len(collapse_white_space(s.take(i)))
        } else {
            remap_below(s, k, i)
        },
{
    if k == byte_offset(s, i) {
        assert(is_boundary_below(s, k, i + 1));
        let j = choose|j: int| 0 <= j < i + 1 && j <= s.len() && byte_offset(s, j) == k;
        lemma_byte_offset_injective(s, i, j);
    } else {
        if is_boundary_below(s, k, i + 1) {
            let j = choose|j: int| 0 <= j < i + 1 && j <= s.len() && byte_offset(s, j) == k;
            assert(j != i);
            assert(is_boundary_below(s, k, i));
            let j2 = choose|j: int| 0 <= j < i && j <= s.len() && byte_offset(s, j) == k;
            lemma_byte_offset_injective(s, j, j2);
        } else {
            if is_boundary_below(s, k, i) {
                let j2 = choose|j: int| 0 <= j < i && j <= s.len() && byte_offset(s, j) == k;
                assert(0 <= j2 < i + 1 && j2 <= s.len() && byte_offset(s, j2) == k);
            }
        }
    }
}

/// Collapse every maximal run of Unicode whitespace (tabs and newlines
/// included) into a single space, as CSS `white-space: normal` does, and remap
/// the byte ranges of `spans` from `text` to the collapsed output in the same
/// pass.
///
/// A span boundary that lands inside a collapsed-away run maps to the position
/// right after the single surviving space, so ranges never overlap and never
/// lose non-whitespace content across a boundary. Offsets that are not a
/// character boundary of `text` map to 0. Leading and trailing runs collapse
/// to one space rather than being removed.
pub fn collapse_white_space_with_span_remap<T: Clone>(
    text: &str,
    spans: &[(Range<usize>, T)],
) -> (r: (String, Vec<(Range<usize>, T)>))
    requires
        utf8_len(text@) < usize::MAX,
        forall|i: int|
            0 <= i < spans@.len() ==> (#[trigger] spans@[i]).0.start <= utf8_len(text@)
                && spans@[i].0.end <= utf8_len(text@),
    ensures
        r.0@ == collapse_white_space(text@),
        r.1@.len() == spans@.len(),
        forall|i: int|
            0 <= i < spans@.len() ==> (#[trigger] r.1@[i]).0.start == remapped_offset(
                text@,
                spans@[i].0.start as int,
            ) && r.1@[i].0.end == remapped_offset(text@, spans@[i].0.end as int) && cloned(
                spans@[i].1,
                r.1@[i].1,
            ),
{
    let ghost s = text@;
    let mut new_text = String::new();
    let mut old_to_new: Vec<usize> = vec![0usize; text.len() + 1];
    let mut prev_was_space = false;
    let mut old_idx: usize = 0;
    proof {
        assert forall|k: int| 0 <= k <= utf8_len(s) implies old_to_new@[k] == remap_below(s, k, 0) by {
        }
        assert(s.take(0) =~= Seq::<char>::empty());
    }
    for c in it: text.chars()
        invariant
            it.seq() == s,
            utf8_len(s) < usize::MAX,
            old_to_new@.len() == utf8_len(s) + 1,
            old_idx == byte_offset(s, it.index() as int),
            new_text@ == collapse_white_space(s.take(it.index() as int)),
            prev_was_space == (it.index() > 0 && unicode_white_space(s[it.index() - 1])),
            forall|k: int|
                0 <= k <= utf8_len(s) ==> #[trigger] old_to_new@[k] == remap_below(
                    s,
                    k,
                    it.index() as int,
                ),
    {
        let ghost i = it.index() as int;
        proof {
            lemma_byte_offset_step(s, i);
            lemma_byte_offset_bound(s, i + 1);
            assert(s[i] == c);
        }
        let new_len = new_text.as_str().len();
        proof {
            lemma_collapse_shrinks(s.take(i));
            lemma_byte_offset_bound(s, i);
            assert(new_len == utf8_len(collapse_white_space(s.take(i))));
        }
        let ghost before = old_to_new@;
        old_to_new.set(old_idx, new_len);
        proof {
            assert forall|k: int| 0 <= k <= utf8_len(s) implies #[trigger] old_to_new@[k] == remap_below(
                s,
                k,
                i + 1,
            ) by {
                lemma_remap_step(s, i, k);
                if k != old_idx {
                    assert(old_to_new@[k] == before[k]);
                    assert(before[k] == remap_below(s, k, i));
                }
            }
            assert(s.take(i + 1).drop_last() =~= s.take(i));
            assert(s.take(i + 1).last() == c);
            if i > 0 {
                assert(s.take(i).last() == s[i - 1]);
            }
        }
        if is_whitespace(c) {
            if !prev_was_space {
                push_char(&mut new_text, ' ');
            }
            prev_was_space = true;
        } else {
            push_char(&mut new_text, c);
            prev_was_space = false;
        }
        let width = len_utf8(c);
        old_idx = old_idx + width;
    }
    proof {
        assert(s.take(s.len() as int) =~= s);
        lemma_byte_offset_bound(s, s.len() as int);
    }
    let end = text.len();
    let new_len = new_text.as_str().len();
    proof {
        lemma_collapse_shrinks(s);
        assert(new_len == utf8_len(collapse_white_space(s.take(s.len() as int))));
        assert(end == byte_offset(s, s.len() as int));
    }
    let ghost before = old_to_new@;
    old_to_new.set(end, new_len);
    proof {
        assert forall|k: int| 0 <= k <= utf8_len(s) implies #[trigger] old_to_new@[k] == remapped_offset(
            s,
            k,
        ) by {
            lemma_remap_step(s, s.len() as int, k);
            if k != end {
                assert(old_to_new@[k] == before[k]);
                assert(before[k] == remap_below(s, k, s.len() as int));
            }
        }
    }
    let mut remapped: Vec<(Range<usize>, T)> = Vec::new();
    let mut j: usize = 0;
    while j < spans.len()
        invariant
            j <= spans@.len(),
            remapped@.len() == j,
            old_to_new@.len() == utf8_len(s) + 1,
            forall|k: int|
                0 <= k <= utf8_len(s) ==> #[trigger] old_to_new@[k] == remapped_offset(s, k),
            forall|i: int|
                0 <= i < spans@.len() ==> (#[trigger] spans@[i]).0.start <= utf8_len(s)
                    && spans@[i].0.end <= utf8_len(s),
            forall|i: int|
                0 <= i < j ==> (#[trigger] remapped@[i]).0.start == remapped_offset(
                    s,
                    spans@[i].0.start as int,
                ) && remapped@[i].0.end == remapped_offset(s, spans@[i].0.end as int) && cloned(
                    spans@[i].1,
                    remapped@[i].1,
                ),
        decreases spans@.len() - j,
    {
        let span = &spans[j];
        let start = old_to_new[span.0.start];
        let stop = old_to_new[span.0.end];
        let payload = span.1.clone();
        remapped.push((start..stop, payload));
        j = j + 1;
    }
    (new_text, remapped)
}


/// Collapsing leaves no two whitespace characters side by side, and the last
/// character of the output is a space exactly when the input ended in
/// whitespace (otherwise it is the input's last character).
pub proof fn lemma_collapse_leaves_no_run(s: Seq<char>)
    ensures
        forall|i: int|
            0 <= i < collapse_white_space(s).len() - 1 ==> !(unicode_white_space(
                #[trigger] collapse_white_space(s)[i],
            ) && unicode_white_space(collapse_white_space(s)[i + 1])),
        s.len() > 0 ==> collapse_white_space(s).len() > 0 && collapse_white_space(s).last() == if unicode_white_space(s.last()) {
            ' '
        } else {
            s.last()
        },
    decreases s.len(),
{
    if s.len() > 0 {
        let init = s.drop_last();
        lemma_collapse_leaves_no_run(init);
        let out = collapse_white_space(init);
        let new = collapse_white_space(s);
        assert forall|i: int| 0 <= i < new.len() - 1 implies !(unicode_white_space(
            #[trigger] new[i],
        ) && unicode_white_space(new[i + 1])) by {
            if i < out.len() - 1 {
                assert(new[i] == out[i]);
                assert(new[i + 1] == out[i + 1]);
            } else {
                assert(new.len() == out.len() + 1);
                assert(new[i] == out.last());
            }
        }
    }
}

/// A non-whitespace character is never lost: it is appended to the collapsed
/// prefix before it, so a span holding it keeps it.
pub proof fn lemma_collapse_keeps_other_characters(s: Seq<char>, i: int)
    requires
        0 <= i < s.len(),
        !unicode_white_space(s[i]),
    ensures
        collapse_white_space(s.take(i + 1)) == collapse_white_space(s.take(i)).push(s[i]),
{
    assert(s.take(i + 1).drop_last() =~= s.take(i));
}

/// The collapsed prefixes grow with the prefix: collapsing `s.take(i)` gives a
/// prefix of collapsing `s.take(j)` for `i <= j`.
pub proof fn lemma_collapse_prefix(s: Seq<char>, i: int, j: int)
    requires
        0 <= i <= j <= s.len(),
    ensures
        collapse_white_space(s.take(i)).len() <= collapse_white_space(s.take(j)).len(),
        collapse_white_space(s.take(i)) == collapse_white_space(s.take(j)).take(
            collapse_white_space(s.take(i)).len() as int,
        ),
    decreases j - i,
{
    if i < j {
        lemma_collapse_prefix(s, i, j - 1);
        assert(s.take(j).drop_last() =~= s.take(j - 1));
        let a = collapse_white_space(s.take(i));
        let b = collapse_white_space(s.take(j - 1));
        let c = collapse_white_space(s.take(j));
        assert(b.take(a.len() as int) == a);
        if c != b {
            assert(c == b.push(s.take(j).last()) || c == b.push(' '));
            assert(c.take(b.len() as int) =~= b);
            assert(c.take(a.len() as int) =~= b.take(a.len() as int));
        }
    }
}

/// A boundary right after whitespace lands right after the single space its
/// run collapsed to.
pub proof fn lemma_boundary_after_whitespace(s: Seq<char>, i: int)
    requires
        0 < i <= s.len(),
        unicode_white_space(s[i - 1]),
    ensures
        collapse_white_space(s.take(i)).len() > 0,
        collapse_white_space(s.take(i)).last() == ' ',
    decreases i,
{
    let t = s.take(i);
    assert(t.drop_last() =~= s.take(i - 1));
    if i > 1 && unicode_white_space(s[i - 2]) {
        lemma_boundary_after_whitespace(s, i - 1);
    }
}

/// Every boundary inside one whitespace run, after its first character, maps
/// to the same place: a span lying wholly in the collapsed-away part of a run
/// becomes empty.
pub proof fn lemma_boundaries_in_a_run_coincide(s: Seq<char>, i: int, j: int)
    requires
        0 < i <= j <= s.len(),
        forall|k: int| i - 1 <= k < j ==> unicode_white_space(#[trigger] s[k]),
    ensures
        collapse_white_space(s.take(i)) == collapse_white_space(s.take(j)),
        remapped_offset(s, byte_offset(s, i) as int) == remapped_offset(
            s,
            byte_offset(s, j) as int,
        ),
    decreases j - i,
{
    if i < j {
        lemma_boundaries_in_a_run_coincide(s, i, j - 1);
        assert(s.take(j).drop_last() =~= s.take(j - 1));
        assert(unicode_white_space(s[j - 1]));
        assert(unicode_white_space(s[j - 2]));
    }
    lemma_remap_monotone(s, i, j);
    lemma_remap_monotone(s, j, j);
}

/// The characters of `s` that are not whitespace, in order.
pub open spec fn non_white(s: Seq<char>) -> Seq<char>
    decreases s.len(),
{
    if s.len() == 0 {
        Seq::empty()
    } else if unicode_white_space(s.last()) {
        non_white(s.drop_last())
    } else {
        non_white(s.drop_last()).push(s.last())
    }
}

proof fn lemma_non_white_concat(a: Seq<char>, b: Seq<char>)
    ensures
        non_white(a + b) == non_white(a) + non_white(b),
    decreases b.len(),
{
    if b.len() == 0 {
        assert(a + b =~= a);
        assert(non_white(a) + non_white(b) =~= non_white(a));
    } else {
        lemma_non_white_concat(a, b.drop_last());
        assert((a + b).drop_last() =~= a + b.drop_last());
        assert((a + b).last() == b.last());
        if !unicode_white_space(b.last()) {
            assert(non_white(a) + non_white(b.drop_last()).push(b.last()) =~= (non_white(a)
                + non_white(b.drop_last())).push(b.last()));
        }
    }
}

/// Collapsing whitespace keeps every other character, in order.
pub proof fn lemma_collapse_keeps_non_white(s: Seq<char>)
    ensures
        non_white(collapse_white_space(s)) == non_white(s),
    decreases s.len(),
{
    if s.len() > 0 {
        let init = s.drop_last();
        let c = collapse_white_space(init);
        lemma_collapse_keeps_non_white(init);
        assert(c.push(' ').drop_last() =~= c);
        assert(c.push(s.last()).drop_last() =~= c);
        assert(unicode_white_space(' '));
    }
}

/// A span never loses or gains non-whitespace content through the collapse:
/// the characters between where boundaries `i` and `j` of `s` land in the
/// collapsed text are, whitespace aside, exactly those between `i` and `j`.
pub proof fn lemma_span_keeps_its_characters(s: Seq<char>, i: int, j: int)
    requires
        0 <= i <= j <= s.len(),
    ensures
        ({
            let a = collapse_white_space(s.take(i));
            let b = collapse_white_space(s.take(j));
            &&& b == a + b.skip(a.len() as int)
            &&& non_white(b.skip(a.len() as int)) == non_white(s.subrange(i, j))
            &&& remapped_offset(s, byte_offset(s, i) as int) == utf8_len(a)
            &&& remapped_offset(s, byte_offset(s, j) as int) == utf8_len(b)
        }),
{
    let a = collapse_white_space(s.take(i));
    let b = collapse_white_space(s.take(j));
    let m = b.skip(a.len() as int);
    lemma_collapse_prefix(s, i, j);
    assert(b =~= a + m);
    lemma_collapse_keeps_non_white(s.take(i));
    lemma_collapse_keeps_non_white(s.take(j));
    lemma_non_white_concat(a, m);
    assert(s.take(j) =~= s.take(i) + s.subrange(i, j));
    lemma_non_white_concat(s.take(i), s.subrange(i, j));
    let x = non_white(s.take(i));
    assert((x + non_white(m)).skip(x.len() as int) =~= non_white(m));
    assert((x + non_white(s.subrange(i, j))).skip(x.len() as int) =~= non_white(
        s.subrange(i, j),
    ));
    lemma_remap_monotone(s, i, j);
    lemma_remap_monotone(s, j, j);
}

/// A span of `s` between character boundaries `i` and `j` remapped through
/// the collapse: its ends land in order within the collapsed text, on the
/// boundaries of its characters `ca` and `cb`; the bytes between them are the
/// encoding of those characters; and, whitespace aside, those characters are
/// exactly the span's own.
pub proof fn lemma_remapped_span(s: Seq<char>, i: int, j: int)
    requires
        0 <= i <= j <= s.len(),
    ensures
        ({
            let c = collapse_white_space(s);
            let ca = collapse_white_space(s.take(i)).len() as int;
            let cb = collapse_white_space(s.take(j)).len() as int;
            &&& 0 <= ca <= cb <= c.len()
            &&& remapped_offset(s, byte_offset(s, i) as int) == byte_offset(c, ca)
            &&& remapped_offset(s, byte_offset(s, j) as int) == byte_offset(c, cb)
            &&& byte_offset(c, ca) <= byte_offset(c, cb) <= utf8_len(c)
            &&& encode_utf8(c).subrange(byte_offset(c, ca) as int, byte_offset(c, cb) as int)
                == encode_utf8(c.subrange(ca, cb))
            &&& non_white(c.subrange(ca, cb)) == non_white(s.subrange(i, j))
        }),
{
    let c = collapse_white_space(s);
    let n = s.len() as int;
    assert(s.take(n) =~= s);
    lemma_collapse_prefix(s, i, j);
    lemma_collapse_prefix(s, j, n);
    lemma_collapse_prefix(s, i, n);
    let ca = collapse_white_space(s.take(i)).len() as int;
    let cb = collapse_white_space(s.take(j)).len() as int;
    assert(collapse_white_space(s.take(i)) == c.take(ca));
    assert(collapse_white_space(s.take(j)) == c.take(cb));
    lemma_span_keeps_its_characters(s, i, j);
    assert(c.take(cb).skip(ca) =~= c.subrange(ca, cb));
    let x = c.take(ca);
    let m = c.subrange(ca, cb);
    let y = c.skip(cb);
    assert(c =~= x + m + y);
    assert(c.take(cb) =~= x + m);
    lemma_encode_utf8_concat(x, m);
    lemma_encode_utf8_concat(x + m, y);
    let ex = encode_utf8(x);
    let em = encode_utf8(m);
    let ey = encode_utf8(y);
    assert(encode_utf8(c) =~= ex + em + ey);
    assert((ex + em + ey).subrange(ex.len() as int, (ex.len() + em.len()) as int) =~= em);
    if ca < cb {
        lemma_byte_offset_monotone(c, ca, cb);
    }
    lemma_byte_offset_bound(c, cb);
}

/// Remapping keeps span boundaries in order: boundaries in order in the input
/// land in order in the collapsed output, so ranges that did not overlap
/// still do not.
pub proof fn lemma_remap_monotone(s: Seq<char>, i: int, j: int)
    requires
        0 <= i <= j <= s.len(),
    ensures
        remapped_offset(s, byte_offset(s, i) as int) == utf8_len(collapse_white_space(s.take(i))),
        remapped_offset(s, byte_offset(s, i) as int) <= remapped_offset(s, byte_offset(s, j) as int),
{
    let ki = byte_offset(s, i) as int;
    let kj = byte_offset(s, j) as int;
    assert(is_boundary_below(s, ki, s.len() + 1int));
    assert(is_boundary_below(s, kj, s.len() + 1int));
    let ci = choose|x: int| 0 <= x < s.len() + 1 && x <= s.len() && byte_offset(s, x) == ki;
    let cj = choose|x: int| 0 <= x < s.len() + 1 && x <= s.len() && byte_offset(s, x) == kj;
    lemma_byte_offset_injective(s, i, ci);
    lemma_byte_offset_injective(s, j, cj);
    lemma_collapse_prefix(s, i, j);
    let a = collapse_white_space(s.take(i));
    let b = collapse_white_space(s.take(j));
    assert(b =~= a + b.skip(a.len() as int));
    lemma_encode_utf8_concat(a, b.skip(a.len() as int));
}


/// A span as `RichText::span` accumulates it, before its text is resolved into
/// a byte range of the assembled content. `overrides` is the style it carries.
#[derive(Clone, PartialEq, Debug)]
pub struct PendingSpan<T> {
    pub text: String,
    pub overrides: T,
    /// `None` inherits the widget's own transform.
    pub text_transform: Option<TextTransform>,
}

/// The transform a span's text gets: its own, or else the widget's.
pub open spec fn span_transform(own: Option<TextTransform>, widget: TextTransform) -> TextTransform {
    match own {
        Some(t) => t,
        None => widget,
    }
}

/// The base text and every span's text, each transformed, in declaration order.
pub open spec fn assembled<T>(
    content: Seq<char>,
    transform: TextTransform,
    spans: Seq<PendingSpan<T>>,
) -> Seq<char>
    decreases spans.len(),
{
    if spans.len() == 0 {
        transformed(content, transform)
    } else {
        assembled(content, transform, spans.drop_last()) + transformed(
            spans.last().text@,
            span_transform(spans.last().text_transform, transform),
        )
    }
}

/// Where span `i`'s text starts in the assembled text, in bytes.
pub open spec fn span_start<T>(
    content: Seq<char>,
    transform: TextTransform,
    spans: Seq<PendingSpan<T>>,
    i: int,
) -> nat {
    utf8_len(assembled(content, transform, spans.take(i)))
}

/// The assembled text only grows as spans are appended.
pub proof fn lemma_assembled_grows<T>(
    content: Seq<char>,
    transform: TextTransform,
    spans: Seq<PendingSpan<T>>,
    i: int,
    j: int,
)
    requires
        0 <= i <= j <= spans.len(),
    ensures
        span_start(content, transform, spans, i) <= span_start(content, transform, spans, j),
    decreases j - i,
{
    if i < j {
        lemma_assembled_grows(content, transform, spans, i, j - 1);
        let prev = spans.take(j - 1);
        assert(spans.take(j).drop_last() =~= prev);
        let last = spans.take(j).last();
        lemma_encode_utf8_concat(
            assembled(content, transform, prev),
            transformed(last.text@, span_transform(last.text_transform, transform)),
        );
    }
}

/// What assembling and resolving `spans` onto `content` yields: the text, and
/// for each span, in order, its byte range in that text and its overrides.
///
/// Under `WhiteSpace::Pre` the text is the assembled text and each range is
/// where the span's transformed text was appended. Under `WhiteSpace::Normal`
/// the assembled text is collapsed and each range is remapped through the
/// collapse.
pub open spec fn is_resolution<T: Clone>(
    content: Seq<char>,
    transform: TextTransform,
    white_space: WhiteSpace,
    spans: Seq<PendingSpan<T>>,
    text: Seq<char>,
    ranges: Seq<(Range<usize>, T)>,
) -> bool {
    let a = assembled(content, transform, spans);
    &&& ranges.len() == spans.len()
    &&& white_space == WhiteSpace::Pre ==> {
        &&& text == a
        &&& forall|i: int|
            0 <= i < spans.len() ==> (#[trigger] ranges[i]).0.start == span_start(
                content,
                transform,
                spans,
                i,
            ) && ranges[i].0.end == span_start(content, transform, spans, i + 1) && cloned(
                spans[i].overrides,
                ranges[i].1,
            )
    }
    &&& white_space == WhiteSpace::Normal ==> {
        &&& text == collapse_white_space(a)
        &&& forall|i: int|
            0 <= i < spans.len() ==> (#[trigger] ranges[i]).0.start == remapped_offset(
                a,
                span_start(content, transform, spans, i) as int,
            ) && ranges[i].0.end == remapped_offset(
                a,
                span_start(content, transform, spans, i + 1) as int,
            ) && exists|m: T| cloned(spans[i].overrides, m) && cloned(m, ranges[i].1)
    }
}

/// The text assembled from the first `j` spans begins the text assembled from
/// the first `m`, for `j <= m`.
proof fn lemma_assembled_prefix<T>(
    content: Seq<char>,
    transform: TextTransform,
    spans: Seq<PendingSpan<T>>,
    j: int,
    m: int,
)
    requires
        0 <= j <= m <= spans.len(),
    ensures
        ({
            let a = assembled(content, transform, spans.take(j));
            let b = assembled(content, transform, spans.take(m));
            a.len() <= b.len() && b == a + b.skip(a.len() as int)
        }),
    decreases m - j,
{
    let a = assembled(content, transform, spans.take(j));
    let b = assembled(content, transform, spans.take(m));
    if j < m {
        lemma_assembled_prefix(content, transform, spans, j, m - 1);
        assert(spans.take(m).drop_last() =~= spans.take(m - 1));
        let b1 = assembled(content, transform, spans.take(m - 1));
        assert(b == b1 + (b.skip(b1.len() as int)));
        assert(b =~= a + b.skip(a.len() as int));
    } else {
        assert(b =~= a + b.skip(a.len() as int));
    }
}

/// What a span contributes under `WhiteSpace::Pre`: the bytes of the resolved
/// text within the span's range are its own text transformed by the
/// transform set on the span, or by the widget's when it sets none. A span
/// set to `NoTransform` keeps its text exactly as written, whatever the
/// widget's transform.
pub proof fn lemma_span_text_takes_its_own_transform<T: Clone>(
    content: Seq<char>,
    transform: TextTransform,
    spans: Seq<PendingSpan<T>>,
    text: Seq<char>,
    ranges: Seq<(Range<usize>, T)>,
    k: int,
)
    requires
        is_resolution(content, transform, WhiteSpace::Pre, spans, text, ranges),
        0 <= k < spans.len(),
    ensures
        ranges[k].0.start <= ranges[k].0.end <= encode_utf8(text).len(),
        spans[k].text_transform matches Some(t) ==> encode_utf8(text).subrange(
            ranges[k].0.start as int,
            ranges[k].0.end as int,
        ) == encode_utf8(transformed(spans[k].text@, t)),
        spans[k].text_transform is None ==> encode_utf8(text).subrange(
            ranges[k].0.start as int,
            ranges[k].0.end as int,
        ) == encode_utf8(transformed(spans[k].text@, transform)),
        spans[k].text_transform == Some(TextTransform::NoTransform) ==> encode_utf8(
            text,
        ).subrange(ranges[k].0.start as int, ranges[k].0.end as int) == encode_utf8(
            spans[k].text@,
        ),
{
    let n = spans.len() as int;
    let ak = assembled(content, transform, spans.take(k));
    let ak1 = assembled(content, transform, spans.take(k + 1));
    let piece = transformed(spans[k].text@, span_transform(spans[k].text_transform, transform));
    assert(spans.take(k + 1).drop_last() =~= spans.take(k));
    assert(spans.take(k + 1).last() == spans[k]);
    assert(ak1 == ak + piece);
    assert(spans.take(n) =~= spans);
    lemma_assembled_prefix(content, transform, spans, k + 1, n);
    let rest = text.skip(ak1.len() as int);
    assert(text == ak1 + rest);
    assert(text =~= ak + piece + rest);
    lemma_encode_utf8_concat(ak, piece);
    lemma_encode_utf8_concat(ak + piece, rest);
    let ea = encode_utf8(ak);
    let ep = encode_utf8(piece);
    let er = encode_utf8(rest);
    assert(encode_utf8(text) =~= ea + ep + er);
    assert(ranges[k].0.start == ea.len());
    assert(ranges[k].0.end == ea.len() + ep.len());
    assert((ea + ep + er).subrange(ea.len() as int, (ea.len() + ep.len()) as int) =~= ep);
}

/// Assemble the base text and every span's text (each transformed first, by
/// its own transform or else the widget's) into one string, tracking each
/// span's byte range as it is appended; then, under `WhiteSpace::Normal`,
/// collapse whitespace once over the whole text, remapping every span's range
/// through the collapse.
pub fn resolved_content<T: Clone>(
    content: &str,
    text_transform: TextTransform,
    white_space: WhiteSpace,
    spans: &[PendingSpan<T>],
) -> (r: (String, Vec<(Range<usize>, T)>))
    requires
        utf8_len(assembled(content@, text_transform, spans@)) < usize::MAX,
    ensures
        is_resolution(content@, text_transform, white_space, spans@, r.0@, r.1@),
{
    let ghost total = utf8_len(assembled(content@, text_transform, spans@));
    let mut text = apply_text_transform(content, text_transform);
    let mut resolved: Vec<(Range<usize>, T)> = Vec::new();
    let mut i: usize = 0;
    proof {
        assert(spans@.take(0) =~= Seq::<PendingSpan<T>>::empty());
        assert(spans@.take(spans@.len() as int) =~= spans@);
        lemma_assembled_grows(content@, text_transform, spans@, 0, spans@.len() as int);
    }
    while i < spans.len()
        invariant
            i <= spans@.len(),
            total == utf8_len(assembled(content@, text_transform, spans@)),
            total < usize::MAX,
            spans@.take(spans@.len() as int) == spans@,
            text@ == assembled(content@, text_transform, spans@.take(i as int)),
            resolved@.len() == i,
            forall|j: int|
                0 <= j < i ==> (#[trigger] resolved@[j]).0.start == span_start(
                    content@,
                    text_transform,
                    spans@,
                    j,
                ) && resolved@[j].0.end == span_start(content@, text_transform, spans@, j + 1)
                    && cloned(spans@[j].overrides, resolved@[j].1),
        decreases spans@.len() - i,
    {
        let pending = &spans[i];
        let transform = pending.text_transform.unwrap_or(text_transform);
        let piece = apply_text_transform(pending.text.as_str(), transform);
        proof {
            assert(spans@.take(i + 1).drop_last() =~= spans@.take(i as int));
            assert(spans@.take(i + 1).last() == spans@[i as int]);
            lemma_encode_utf8_concat(text@, piece@);
            lemma_assembled_grows(content@, text_transform, spans@, i + 1, spans@.len() as int);
        }
        let start = text.as_str().len();
        text.append(piece.as_str());
        let end = text.as_str().len();
        let overrides = pending.overrides.clone();
        resolved.push((start..end, overrides));
        i = i + 1;
    }
    match white_space {
        WhiteSpace::Normal => {
            proof {
                assert forall|j: int| 0 <= j < resolved@.len() implies (#[trigger] resolved@[j]).0.start
                    <= utf8_len(text@) && resolved@[j].0.end <= utf8_len(text@) by {
                    lemma_assembled_grows(content@, text_transform, spans@, j, j + 1);
                    lemma_assembled_grows(content@, text_transform, spans@, j + 1, spans@.len() as int);
                }
            }
            let out = collapse_white_space_with_span_remap(text.as_str(), resolved.as_slice());
            proof {
                assert forall|j: int| 0 <= j < spans@.len() implies exists|m: T| cloned(spans@[j].overrides, m) && cloned(m, (#[trigger] out.1@[j]).1) by {
                    assert(cloned(spans@[j].overrides, resolved@[j].1));
                }
            }
            out
        },
        WhiteSpace::Pre => (text, resolved),
    }
}

/// [`resolved_content`], checked: `None` when the assembled text would be
/// `usize::MAX` bytes or longer, so that no offset into it, nor one past its
/// end, would fit in a `usize`.
pub fn try_resolved_content<T: Clone>(
    content: &str,
    text_transform: TextTransform,
    white_space: WhiteSpace,
    spans: &[PendingSpan<T>],
) -> (r: Option<(String, Vec<(Range<usize>, T)>)>)
    ensures
        r is None <==> utf8_len(assembled(content@, text_transform, spans@)) >= usize::MAX,
        r matches Some(v) ==> is_resolution(
            content@,
            text_transform,
            white_space,
            spans@,
            v.0@,
            v.1@,
        ),
{
    let base = apply_text_transform(content, text_transform);
    let mut total: usize = base.as_str().as_bytes().len();
    let mut i: usize = 0;
    proof {
        assert(spans@.take(0) =~= Seq::<PendingSpan<T>>::empty());
        assert(spans@.take(spans@.len() as int) =~= spans@);
    }
    while i < spans.len()
        invariant
            i <= spans@.len(),
            spans@.take(spans@.len() as int) == spans@,
            total == span_start(content@, text_transform, spans@, i as int),
        decreases spans@.len() - i,
    {
        let pending = &spans[i];
        let transform = pending.text_transform.unwrap_or(text_transform);
        let piece = apply_text_transform(pending.text.as_str(), transform);
        let n = piece.as_str().as_bytes().len();
        proof {
            assert(spans@.take(i + 1).drop_last() =~= spans@.take(i as int));
            assert(spans@.take(i + 1).last() == spans@[i as int]);
            lemma_encode_utf8_concat(
                assembled(content@, text_transform, spans@.take(i as int)),
                piece@,
            );
            lemma_assembled_grows(content@, text_transform, spans@, i + 1, spans@.len() as int);
        }
        match total.checked_add(n) {
            Some(t) => total = t,
            None => return None,
        }
        i = i + 1;
    }
    if total == usize::MAX {
        return None;
    }
    Some(resolved_content(content, text_transform, white_space, spans))
}

} // verus!
