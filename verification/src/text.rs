//! Text helpers, stated over sequences of characters.
use vstd::prelude::*;

verus! {

broadcast use vstd::string::group_string_axioms;

/// The characters of each string.
pub open spec fn texts(strings: Seq<String>) -> Seq<Seq<char>> {
    strings.map_values(|s: String| s@)
}

/// The characters of each string of each list.
pub open spec fn text_lists(lists: Seq<Vec<String>>) -> Seq<Seq<Seq<char>>> {
    lists.map_values(|list: Vec<String>| texts(list@))
}

/// The characters of each string of a map.
pub open spec fn name_texts(names: Map<u32, String>) -> Map<u32, Seq<char>> {
    names.map_values(|name: String| name@)
}

/// The order of strings by the code points of their characters.
pub open spec fn precedes(a: Seq<char>, b: Seq<char>) -> bool
    decreases a.len(),
{
    if b.len() == 0 {
        false
    } else if a.len() == 0 {
        true
    } else if a[0] != b[0] {
        a[0] < b[0]
    } else {
        precedes(a.drop_first(), b.drop_first())
    }
}

/// The pieces of a text between the separators, as many as there are separators, and one more.
pub open spec fn split(s: Seq<char>, separator: char) -> Seq<Seq<char>>
    decreases s.len(),
{
    if s.len() == 0 {
        seq![Seq::empty()]
    } else {
        let before = split(s.drop_last(), separator);
        if s.last() == separator {
            before.push(Seq::empty())
        } else {
            before.drop_last().push(before.last().push(s.last()))
        }
    }
}

/// The parts one after another, with the separator between them.
pub open spec fn join(parts: Seq<Seq<char>>, separator: Seq<char>) -> Seq<char>
    decreases parts.len(),
{
    if parts.len() == 0 {
        Seq::empty()
    } else if parts.len() == 1 {
        parts[0]
    } else {
        join(parts.drop_last(), separator) + separator + parts.last()
    }
}

/// The characters with the Unicode property `White_Space`.
pub open spec fn is_space(c: char) -> bool {
    ||| 0x9 <= c as u32 <= 0xd
    ||| c as u32 == 0x20
    ||| c as u32 == 0x85
    ||| c as u32 == 0xa0
    ||| c as u32 == 0x1680
    ||| 0x2000 <= c as u32 <= 0x200a
    ||| c as u32 == 0x2028
    ||| c as u32 == 0x2029
    ||| c as u32 == 0x202f
    ||| c as u32 == 0x205f
    ||| c as u32 == 0x3000
}

/// The text without the white space in front of it.
pub open spec fn trim_start(s: Seq<char>) -> Seq<char>
    decreases s.len(),
{
    if s.len() > 0 && is_space(s[0]) {
        trim_start(s.drop_first())
    } else {
        s
    }
}

/// The text without the white space behind it.
pub open spec fn trim_end(s: Seq<char>) -> Seq<char>
    decreases s.len(),
{
    if s.len() > 0 && is_space(s.last()) {
        trim_end(s.drop_last())
    } else {
        s
    }
}

/// How many characters stand in front of the first white space.
pub open spec fn word_len(s: Seq<char>) -> nat
    decreases s.len(),
{
    if s.len() == 0 || is_space(s[0]) {
        0
    } else {
        1 + word_len(s.drop_first())
    }
}

/// The first run of characters other than white space; empty where there is none.
pub open spec fn first_word(s: Seq<char>) -> Seq<char> {
    trim_start(s).take(word_len(trim_start(s)) as int)
}

/// How often the character stands at the front of the text before any other.
pub open spec fn leading(s: Seq<char>, c: char) -> nat
    decreases s.len(),
{
    if s.len() == 0 || s[0] != c {
        0
    } else {
        1 + leading(s.drop_first(), c)
    }
}

/// The text without every occurrence of the suffix at its end.
pub open spec fn strip_suffixes(s: Seq<char>, suffix: Seq<char>) -> Seq<char>
    decreases s.len(),
{
    if suffix.len() > 0 && suffix.is_suffix_of(s) {
        strip_suffixes(s.take(s.len() - suffix.len()), suffix)
    } else {
        s
    }
}

/// The decimal digits of a number.
pub open spec fn decimal(n: nat) -> Seq<char>
    decreases n,
{
    if n < 10 {
        seq![digit(n)]
    } else {
        decimal(n / 10).push(digit(n % 10))
    }
}

/// The decimal digit of a number below ten.
pub open spec fn digit(n: nat) -> char {
    ('0' as u32 + n) as char
}

/// A word holds no white space, and is empty only where there is nothing but white space.
pub proof fn law_words_hold_no_space(s: Seq<char>)
    ensures
        forall|i: int| 0 <= i < first_word(s).len() ==> !is_space(#[trigger] first_word(s)[i]),
        first_word(s).len() == 0 <==> forall|i: int| 0 <= i < s.len() ==> is_space(#[trigger] s[i]),
    decreases s.len(),
{
    if s.len() > 0 && is_space(s[0]) {
        law_words_hold_no_space(s.drop_first());
        assert forall|i: int| 0 <= i < s.len() && first_word(s).len() == 0 implies is_space(
            #[trigger] s[i],
        ) by {
            if i > 0 {
                assert(s.drop_first()[i - 1] == s[i]);
            }
        }
    } else {
        lemma_word(s);
    }
}

proof fn lemma_word(s: Seq<char>)
    ensures
        word_len(s) <= s.len(),
        forall|i: int| 0 <= i < word_len(s) ==> !is_space(#[trigger] s[i]),
    decreases s.len(),
{
    if s.len() > 0 && !is_space(s[0]) {
        lemma_word(s.drop_first());
        assert forall|i: int| 0 <= i < word_len(s) implies !is_space(#[trigger] s[i]) by {
            if i > 0 {
                assert(s.drop_first()[i - 1] == s[i]);
            }
        }
    }
}

/// The leading characters, and what follows them, make up the text, and what follows starts with
/// another character.
pub proof fn law_leading_characters(s: Seq<char>, c: char)
    ensures
        leading(s, c) <= s.len(),
        forall|i: int| 0 <= i < leading(s, c) ==> #[trigger] s[i] == c,
        leading(s, c) < s.len() ==> s[leading(s, c) as int] != c,
    decreases s.len(),
{
    if s.len() > 0 && s[0] == c {
        law_leading_characters(s.drop_first(), c);
        assert forall|i: int| 0 <= i < leading(s, c) implies #[trigger] s[i] == c by {
            if i > 0 {
                assert(s.drop_first()[i - 1] == s[i]);
            }
        }
    }
}

/// The pieces of a text, joined by the separator, make up the text.
pub proof fn law_join_undoes_split(s: Seq<char>, separator: char)
    ensures
        join(split(s, separator), seq![separator]) == s,
    decreases s.len(),
{
    let pieces = split(s, separator);
    if s.len() > 0 {
        let before = split(s.drop_last(), separator);
        law_join_undoes_split(s.drop_last(), separator);
        let glue = seq![separator];
        if s.last() == separator {
            assert(pieces.drop_last() =~= before);
        } else if before.len() > 1 {
            assert(pieces.drop_last() =~= before.drop_last());
            assert(join(pieces, glue) =~= join(before, glue).push(s.last()));
        }
    }
}

/// A text behind a separator, with no separator in it, is one more piece.
pub proof fn law_split_appends(s: Seq<char>, separator: char, tail: Seq<char>)
    requires
        !tail.contains(separator),
    ensures
        split(s + seq![separator] + tail, separator) == split(s, separator).push(tail),
    decreases tail.len(),
{
    let whole = s + seq![separator] + tail;
    if tail.len() == 0 {
        assert(whole.drop_last() =~= s);
        assert(tail =~= Seq::empty());
    } else {
        let shorter = tail.drop_last();
        law_split_appends(s, separator, shorter);
        assert(whole.drop_last() =~= s + seq![separator] + shorter);
        assert(shorter.push(tail.last()) =~= tail);
    }
}

/// The characters of a text, in order.
pub fn chars_of(s: &str) -> (chars: Vec<char>)
    ensures
        chars@ == s@,
{
    let mut chars: Vec<char> = Vec::new();
    for c in it: s.chars()
        invariant
            chars@ == s@.take(it.index() as int),
            it.seq() == s@,
    {
        chars.push(c);
    }
    chars
}

/// Whether the first text comes before the second in the order of code points.
pub fn comes_before(a: &str, b: &str) -> (before: bool)
    ensures
        before == precedes(a@, b@),
{
    let left: Vec<char> = chars_of(a);
    let right: Vec<char> = chars_of(b);
    let mut i: usize = 0;
    assert(left@.skip(0) =~= a@);
    assert(right@.skip(0) =~= b@);
    while i < left.len() && i < right.len()
        invariant
            i <= left.len(),
            i <= right.len(),
            precedes(a@, b@) == precedes(left@.skip(i as int), right@.skip(i as int)),
        decreases left.len() - i,
    {
        if left[i] != right[i] {
            return left[i] < right[i];
        }
        assert(left@.skip(i as int).drop_first() =~= left@.skip(i + 1));
        assert(right@.skip(i as int).drop_first() =~= right@.skip(i + 1));
        i += 1;
    }
    i < right.len()
}

/// Whether two texts hold the same characters.
pub fn same_text(a: &str, b: &str) -> (same: bool)
    ensures
        same == (a@ == b@),
{
    let left: String = a.to_owned();
    let right: String = b.to_owned();
    left == right
}

/// The pieces of a text between the separators.
pub fn split_text(s: &str, separator: char) -> (pieces: Vec<String>)
    ensures
        texts(pieces@) == split(s@, separator),
{
    let chars: Vec<char> = chars_of(s);
    let mut pieces: Vec<String> = Vec::new();
    let mut start: usize = 0;
    let mut i: usize = 0;
    assert(s@.subrange(0, 0) =~= Seq::empty());
    while i < chars.len()
        invariant
            chars@ == s@,
            start <= i <= chars.len(),
            texts(pieces@).push(s@.subrange(start as int, i as int)) == split(
                s@.take(i as int),
                separator,
            ),
        decreases chars.len() - i,
    {
        assert(s@.take(i + 1).drop_last() =~= s@.take(i as int));
        if chars[i] == separator {
            let piece: String = s.substring_char(start, i).to_owned();
            pieces.push(piece);
            start = i + 1;
            assert(s@.subrange(start as int, i + 1) =~= Seq::empty());
        } else {
            assert(s@.subrange(start as int, i + 1) =~= s@.subrange(start as int, i as int).push(
                s@[i as int],
            ));
        }
        i += 1;
    }
    let piece: String = s.substring_char(start, i).to_owned();
    pieces.push(piece);
    assert(s@.take(i as int) =~= s@);
    pieces
}

/// The first `count` parts one after another, with the separator between them.
pub fn join_first(parts: &Vec<String>, count: usize, separator: &str) -> (text: String)
    requires
        count <= parts.len(),
    ensures
        text@ == join(texts(parts@).take(count as int), separator@),
{
    let mut text: String = String::new();
    let mut i: usize = 0;
    while i < count
        invariant
            i <= count <= parts.len(),
            text@ == join(texts(parts@).take(i as int), separator@),
        decreases count - i,
    {
        let ghost taken = texts(parts@).take(i + 1);
        assert(taken.drop_last() =~= texts(parts@).take(i as int));
        if i > 0 {
            text.append(separator);
        }
        text.append(parts[i].as_str());
        i += 1;
    }
    text
}

/// Whether the character is white space.
pub fn is_space_char(c: char) -> (space: bool)
    ensures
        space == is_space(c),
{
    let code: u32 = c as u32;
    (0x9 <= code && code <= 0xd) || code == 0x20 || code == 0x85 || code == 0xa0 || code == 0x1680
        || (0x2000 <= code && code <= 0x200a) || code == 0x2028 || code == 0x2029 || code == 0x202f
        || code == 0x205f || code == 0x3000
}

/// The position behind the white space that starts at a position.
fn skip_space(chars: &Vec<char>, from: usize) -> (to: usize)
    requires
        from <= chars.len(),
    ensures
        from <= to <= chars.len(),
        chars@.skip(to as int) == trim_start(chars@.skip(from as int)),
        to < chars.len() ==> !is_space(chars[to as int]),
{
    let mut to: usize = from;
    while to < chars.len() && is_space_char(chars[to])
        invariant
            from <= to <= chars.len(),
            trim_start(chars@.skip(to as int)) == trim_start(chars@.skip(from as int)),
        decreases chars.len() - to,
    {
        assert(chars@.skip(to as int).drop_first() =~= chars@.skip(to + 1));
        to += 1;
    }
    to
}

/// The text without the white space at both ends.
pub fn trim_text(s: &str) -> (text: String)
    ensures
        text@ == trim_end(trim_start(s@)),
{
    let chars: Vec<char> = chars_of(s);
    let start: usize = skip_space(&chars, 0);
    assert(chars@.skip(0) =~= s@);
    let mut end: usize = chars.len();
    while start < end && is_space_char(chars[end - 1])
        invariant
            chars@ == s@,
            start <= end <= chars.len(),
            trim_end(s@.subrange(start as int, end as int)) == trim_end(trim_start(s@)),
        decreases end - start,
    {
        assert(s@.subrange(start as int, end as int).drop_last() =~= s@.subrange(
            start as int,
            end - 1,
        ));
        end -= 1;
    }
    s.substring_char(start, end).to_owned()
}

/// The first run of characters other than white space.
pub fn first_word_text(s: &str) -> (word: String)
    ensures
        word@ == first_word(s@),
{
    let chars: Vec<char> = chars_of(s);
    let start: usize = skip_space(&chars, 0);
    assert(chars@.skip(0) =~= s@);
    let mut end: usize = start;
    while end < chars.len() && !is_space_char(chars[end])
        invariant
            start <= end <= chars.len(),
            word_len(chars@.skip(start as int)) == (end - start) + word_len(chars@.skip(end as int)),
        decreases chars.len() - end,
    {
        assert(chars@.skip(end as int).drop_first() =~= chars@.skip(end + 1));
        end += 1;
    }
    s.substring_char(start, end).to_owned()
}

/// How often the character stands at the front of the text.
pub fn count_leading(s: &str, c: char) -> (count: usize)
    ensures
        count == leading(s@, c),
        count <= s@.len(),
{
    let chars: Vec<char> = chars_of(s);
    let mut count: usize = 0;
    assert(chars@.skip(0) =~= s@);
    while count < chars.len() && chars[count] == c
        invariant
            chars@ == s@,
            count <= chars.len(),
            leading(s@, c) == count + leading(s@.skip(count as int), c),
        decreases chars.len() - count,
    {
        assert(chars@.skip(count as int).drop_first() =~= chars@.skip(count + 1));
        count += 1;
    }
    count
}

/// The text without its first `count` characters.
pub fn skip_chars(s: &str, count: usize) -> (rest: String)
    requires
        count <= s@.len(),
    ensures
        rest@ == s@.skip(count as int),
{
    let len: usize = s.unicode_len();
    s.substring_char(count, len).to_owned()
}

/// The text without the suffix at its end; nothing where the text does not end so.
pub fn strip_suffix_text(s: &str, suffix: &str) -> (rest: Option<String>)
    ensures
        match rest {
            Some(text) => suffix@.is_suffix_of(s@) && text@ == s@.take(
                s@.len() - suffix@.len(),
            ),
            None => !suffix@.is_suffix_of(s@),
        },
{
    let chars: Vec<char> = chars_of(s);
    let ending: Vec<char> = chars_of(suffix);
    if chars.len() < ending.len() {
        return None;
    }
    let keep: usize = chars.len() - ending.len();
    let mut i: usize = 0;
    while i < ending.len()
        invariant
            chars@ == s@,
            ending@ == suffix@,
            keep + ending.len() == chars.len(),
            i <= ending.len(),
            forall|j: int| 0 <= j < i ==> s@[keep + j] == suffix@[j],
        decreases ending.len() - i,
    {
        if chars[keep + i] != ending[i] {
            return None;
        }
        i += 1;
    }
    Some(s.substring_char(0, keep).to_owned())
}

/// The text without every occurrence of the suffix at its end.
pub fn strip_all_suffixes(s: &str, suffix: &str) -> (text: String)
    requires
        suffix@.len() > 0,
    ensures
        text@ == strip_suffixes(s@, suffix@),
    decreases s@.len(),
{
    match strip_suffix_text(s, suffix) {
        Some(shorter) => strip_all_suffixes(shorter.as_str(), suffix),
        None => s.to_owned(),
    }
}

/// The decimal digit of a number below ten.
fn digit_text(n: u64) -> (text: &'static str)
    requires
        n < 10,
    ensures
        text@ == seq![digit(n as nat)],
{
    proof {
        reveal_strlit("0");
        reveal_strlit("1");
        reveal_strlit("2");
        reveal_strlit("3");
        reveal_strlit("4");
        reveal_strlit("5");
        reveal_strlit("6");
        reveal_strlit("7");
        reveal_strlit("8");
        reveal_strlit("9");
    }
    match n {
        0 => "0",
        1 => "1",
        2 => "2",
        3 => "3",
        4 => "4",
        5 => "5",
        6 => "6",
        7 => "7",
        8 => "8",
        _ => "9",
    }
}

/// The decimal digits of a number.
pub fn decimal_text(n: u64) -> (text: String)
    ensures
        text@ == decimal(n as nat),
    decreases n,
{
    if n < 10 {
        digit_text(n).to_owned()
    } else {
        let mut text: String = decimal_text(n / 10);
        text.append(digit_text(n % 10));
        text
    }
}

/// Each string is read in its place, and nothing else is.
pub proof fn law_texts_stay_in_place(
    strings: Seq<String>,
    lists: Seq<Vec<String>>,
    names: Map<u32, String>,
)
    ensures
        texts(strings).len() == strings.len(),
        forall|i: int| 0 <= i < strings.len() ==> #[trigger] texts(strings)[i] == strings[i]@,
        text_lists(lists).len() == lists.len(),
        forall|i: int|
            0 <= i < lists.len() ==> (#[trigger] text_lists(lists)[i]).len() == lists[i]@.len(),
        forall|i: int, j: int|
            0 <= i < lists.len() && 0 <= j < lists[i]@.len() ==> #[trigger] text_lists(lists)[i][j]
                == lists[i]@[j]@,
        forall|node: u32| #[trigger]
            name_texts(names).contains_key(node) <==> names.contains_key(node),
        forall|node: u32|
            names.contains_key(node) ==> #[trigger] name_texts(names)[node] == names[node]@,
{
}

/// Where two texts agree in front and then differ, the difference decides which comes first; a text
/// comes before every longer one that starts with it.
pub proof fn law_first_difference_decides(a: Seq<char>, b: Seq<char>, at: int)
    requires
        0 <= at <= a.len(),
        at <= b.len(),
        a.take(at) == b.take(at),
        at == a.len() || at == b.len() || a[at] != b[at],
    ensures
        precedes(a, b) <==> at < b.len() && (at == a.len() || a[at] < b[at]),
    decreases at,
{
    if at > 0 {
        assert(a[0] == a.take(at)[0]);
        assert(b[0] == b.take(at)[0]);
        assert forall|i: int| 0 <= i < at - 1 implies #[trigger] a.drop_first()[i]
            == b.drop_first()[i] by {
            assert(a.take(at)[i + 1] == a[i + 1]);
            assert(b.take(at)[i + 1] == b[i + 1]);
        }
        assert(a.drop_first().take(at - 1) =~= b.drop_first().take(at - 1));
        law_first_difference_decides(a.drop_first(), b.drop_first(), at - 1);
    }
}

/// A text is split into pieces without separators, one more than it has separators.
pub proof fn law_pieces_hold_no_separator(s: Seq<char>, separator: char)
    ensures
        split(s, separator).len() == s.filter(|c: char| c == separator).len() + 1,
        forall|i: int|
            0 <= i < split(s, separator).len() ==> !(#[trigger] split(s, separator)[i]).contains(
                separator,
            ),
    decreases s.len(),
{
    reveal(Seq::filter);
    if s.len() > 0 {
        law_pieces_hold_no_separator(s.drop_last(), separator);
        let before = split(s.drop_last(), separator);
        let after = split(s, separator);
        assert forall|i: int| 0 <= i < after.len() implies !(#[trigger] after[i]).contains(
            separator,
        ) by {
            if i < before.len() - 1 || (i < before.len() && s.last() == separator) {
                assert(after[i] == before[i]);
            } else if s.last() != separator {
                assert(!before[i].contains(separator));
                assert(after[i] == before[i].push(s.last()));
                if after[i].contains(separator) {
                    let k = after[i].index_of(separator);
                    assert(before[i][k] == separator);
                }
            }
        }
    }
}

/// Pieces without separators that were joined come apart again as they were.
pub proof fn law_split_undoes_join(parts: Seq<Seq<char>>, separator: char)
    requires
        parts.len() > 0,
        forall|i: int| 0 <= i < parts.len() ==> !(#[trigger] parts[i]).contains(separator),
    ensures
        split(join(parts, seq![separator]), separator) == parts,
    decreases parts.len(),
{
    if parts.len() == 1 {
        lemma_split_whole(parts[0], separator);
        assert(seq![parts[0]] =~= parts);
    } else {
        let shorter = parts.drop_last();
        assert forall|i: int| 0 <= i < shorter.len() implies !(#[trigger] shorter[i]).contains(
            separator,
        ) by {
            assert(shorter[i] == parts[i]);
        }
        law_split_undoes_join(shorter, separator);
        law_split_appends(join(shorter, seq![separator]), separator, parts.last());
        assert(shorter.push(parts.last()) =~= parts);
    }
}

/// A text without a separator is its only piece.
proof fn lemma_split_whole(s: Seq<char>, separator: char)
    requires
        !s.contains(separator),
    ensures
        split(s, separator) == seq![s],
    decreases s.len(),
{
    if s.len() == 0 {
        assert(s =~= Seq::empty());
    } else {
        assert forall|i: int| 0 <= i < s.len() - 1 implies s.drop_last()[i] != separator by {
            assert(s[i] != separator);
        }
        assert(!s.drop_last().contains(separator));
        lemma_split_whole(s.drop_last(), separator);
        assert(s[s.len() - 1] != separator);
        assert(s.drop_last().push(s.last()) =~= s);
        assert(split(s, separator) =~= seq![s]);
    }
}

/// One part joined is the part, and parts joined in two groups, with the separator between the
/// groups, are all of them joined.
pub proof fn law_join_in_groups(
    part: Seq<char>,
    first: Seq<Seq<char>>,
    second: Seq<Seq<char>>,
    separator: Seq<char>,
)
    requires
        first.len() > 0,
        second.len() > 0,
    ensures
        join(Seq::empty(), separator) == Seq::<char>::empty(),
        join(seq![part], separator) == part,
        join(first + second, separator) == join(first, separator) + separator + join(
            second,
            separator,
        ),
    decreases second.len(),
{
    let whole = first + second;
    let shorter = second.drop_last();
    assert(whole.drop_last() =~= first + shorter);
    if shorter.len() > 0 {
        law_join_in_groups(part, first, shorter, separator);
        assert(join(whole, separator) =~= join(first, separator) + separator + join(
            second,
            separator,
        ));
    } else {
        assert(first + shorter =~= first);
    }
}

/// White space is the blank, the control characters from the tabulator to the carriage return, and
/// the spaces and separators of Unicode.
pub proof fn law_space_characters(c: char)
    ensures
        is_space(c) <==> (c == ' ' || c == '\t' || c == '\n' || c == '\u{b}' || c == '\u{c}' || c
            == '\r' || c == '\u{85}' || c == '\u{a0}' || c == '\u{1680}' || ('\u{2000}' <= c && c
            <= '\u{200a}') || c == '\u{2028}' || c == '\u{2029}' || c == '\u{202f}' || c
            == '\u{205f}' || c == '\u{3000}'),
{
}

/// Trimming takes away white space at both ends, all of it, and nothing else: it leaves what stands
/// between the two positions.
pub proof fn law_trim_leaves_the_middle(s: Seq<char>) -> (range: (int, int))
    ensures
        0 <= range.0 <= range.1 <= s.len(),
        trim_end(trim_start(s)) == s.subrange(range.0, range.1),
        forall|i: int| 0 <= i < range.0 ==> is_space(#[trigger] s[i]),
        forall|i: int| range.1 <= i < s.len() ==> is_space(#[trigger] s[i]),
        range.0 < range.1 ==> !is_space(s[range.0]) && !is_space(s[range.1 - 1]),
    decreases s.len(),
{
    if s.len() == 0 {
        assert(s.subrange(0, 0) =~= s);
        (0, 0)
    } else if is_space(s[0]) {
        let rest = s.drop_first();
        let inner = law_trim_leaves_the_middle(rest);
        assert(rest.subrange(inner.0, inner.1) =~= s.subrange(inner.0 + 1, inner.1 + 1));
        assert forall|i: int| 0 <= i < inner.0 + 1 implies is_space(#[trigger] s[i]) by {
            if i > 0 {
                assert(rest[i - 1] == s[i]);
            }
        }
        assert forall|i: int| inner.1 + 1 <= i < s.len() implies is_space(#[trigger] s[i]) by {
            assert(rest[i - 1] == s[i]);
        }
        (inner.0 + 1, inner.1 + 1)
    } else {
        let end = lemma_trim_end(s);
        (0, end)
    }
}

proof fn lemma_trim_end(s: Seq<char>) -> (end: int)
    ensures
        0 <= end <= s.len(),
        trim_end(s) == s.subrange(0, end),
        forall|i: int| end <= i < s.len() ==> is_space(#[trigger] s[i]),
        end > 0 ==> !is_space(s[end - 1]),
    decreases s.len(),
{
    if s.len() > 0 && is_space(s.last()) {
        let end = lemma_trim_end(s.drop_last());
        assert(s.drop_last().subrange(0, end) =~= s.subrange(0, end));
        assert forall|i: int| end <= i < s.len() implies is_space(#[trigger] s[i]) by {
            if i < s.len() - 1 {
                assert(s.drop_last()[i] == s[i]);
            }
        }
        end
    } else {
        assert(s.subrange(0, s.len() as int) =~= s);
        s.len() as int
    }
}

/// The first word is what stands between the two positions: in front of it there is only white
/// space, in it there is none, and it ends at white space or at the end of the text.
pub proof fn law_first_word_is_a_run(s: Seq<char>) -> (range: (int, int))
    ensures
        0 <= range.0 <= range.1 <= s.len(),
        first_word(s) == s.subrange(range.0, range.1),
        forall|i: int| 0 <= i < range.0 ==> is_space(#[trigger] s[i]),
        forall|i: int| range.0 <= i < range.1 ==> !is_space(#[trigger] s[i]),
        range.1 < s.len() ==> is_space(s[range.1]),
        range.0 == range.1 ==> range.0 == s.len(),
    decreases s.len(),
{
    if s.len() > 0 && is_space(s[0]) {
        let rest = s.drop_first();
        let inner = law_first_word_is_a_run(rest);
        assert(rest.subrange(inner.0, inner.1) =~= s.subrange(inner.0 + 1, inner.1 + 1));
        assert forall|i: int| 0 <= i < inner.0 + 1 implies is_space(#[trigger] s[i]) by {
            if i > 0 {
                assert(rest[i - 1] == s[i]);
            }
        }
        assert forall|i: int| inner.0 + 1 <= i < inner.1 + 1 implies !is_space(#[trigger] s[i]) by {
            assert(rest[i - 1] == s[i]);
        }
        (inner.0 + 1, inner.1 + 1)
    } else {
        lemma_word(s);
        lemma_word_ends(s);
        assert(s.take(word_len(s) as int) =~= s.subrange(0, word_len(s) as int));
        (0, word_len(s) as int)
    }
}

proof fn lemma_word_ends(s: Seq<char>)
    ensures
        word_len(s) < s.len() ==> is_space(s[word_len(s) as int]),
    decreases s.len(),
{
    if s.len() > 0 && !is_space(s[0]) {
        lemma_word_ends(s.drop_first());
    }
}

/// A text that does not end in the suffix stays as it is, and one more suffix at its end changes
/// nothing.
pub proof fn law_suffixes_are_stripped(s: Seq<char>, suffix: Seq<char>)
    requires
        suffix.len() > 0,
    ensures
        !suffix.is_suffix_of(strip_suffixes(s, suffix)),
        strip_suffixes(s, suffix).is_prefix_of(s),
        !suffix.is_suffix_of(s) ==> strip_suffixes(s, suffix) == s,
        strip_suffixes(s + suffix, suffix) == strip_suffixes(s, suffix),
    decreases s.len(),
{
    let longer = s + suffix;
    assert(suffix.is_suffix_of(longer));
    assert(longer.take(longer.len() - suffix.len()) =~= s);
    if suffix.is_suffix_of(s) {
        law_suffixes_are_stripped(s.take(s.len() - suffix.len()), suffix);
    }
}

/// The number that decimal digits stand for.
pub open spec fn number(digits: Seq<char>) -> int
    decreases digits.len(),
{
    if digits.len() == 0 {
        0
    } else {
        10 * number(digits.drop_last()) + (digits.last() as int - '0' as int)
    }
}

/// The digits of a number stand for it, and do not start with a zero unless it is zero.
pub proof fn law_decimal_stands_for_number(n: nat)
    ensures
        number(decimal(n)) == n,
        decimal(n).len() > 0,
        forall|i: int| 0 <= i < decimal(n).len() ==> '0' <= #[trigger] decimal(n)[i] <= '9',
        decimal(n)[0] == '0' ==> n == 0 && decimal(n).len() == 1,
    decreases n,
{
    let digits = decimal(n);
    if n < 10 {
        assert(digits.drop_last() =~= Seq::empty());
        assert(number(digits.drop_last()) == 0);
    } else {
        law_decimal_stands_for_number(n / 10);
        assert(digits.drop_last() =~= decimal(n / 10));
        assert(digits[0] == decimal(n / 10)[0]);
    }
}

} // verus!
