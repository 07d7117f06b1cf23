//! Text as sequences of characters: the few string operations the bot needs,
//! each proved against its meaning on `Seq<char>`.

use vstd::prelude::*;
use vstd::string::*;
use vstd::utf8::*;

verus! {

/// `String::push`: the given character is appended to the end of the string.
pub assume_specification[ String::push ](s: &mut String, c: char)
    ensures
        final(s)@ == old(s)@.push(c),
;

/// The characters that carry the Unicode property `White_Space`.
pub open spec fn is_space(c: char) -> bool {
    ||| '\u{9}' <= c <= '\u{d}'
    ||| c == ' '
    ||| c == '\u{85}'
    ||| c == '\u{a0}'
    ||| c == '\u{1680}'
    ||| '\u{2000}' <= c <= '\u{200a}'
    ||| c == '\u{2028}'
    ||| c == '\u{2029}'
    ||| c == '\u{202f}'
    ||| c == '\u{205f}'
    ||| c == '\u{3000}'
}

/// Whether `c` is an ASCII digit.
pub open spec fn is_digit(c: char) -> bool {
    '0' <= c <= '9'
}

/// `text` without its leading white space.
pub open spec fn without_leading_space(text: Seq<char>) -> Seq<char>
    decreases text.len(),
{
    if text.len() > 0 && is_space(text[0]) {
        without_leading_space(text.skip(1))
    } else {
        text
    }
}

/// `text` without its trailing white space.
pub open spec fn without_trailing_space(text: Seq<char>) -> Seq<char>
    decreases text.len(),
{
    if text.len() > 0 && is_space(text.last()) {
        without_trailing_space(text.drop_last())
    } else {
        text
    }
}

/// `text` without white space at either end.
pub open spec fn trimmed(text: Seq<char>) -> Seq<char> {
    without_trailing_space(without_leading_space(text))
}

/// Whether `text` has no white space at either end.
pub open spec fn is_trimmed(text: Seq<char>) -> bool {
    text.len() > 0 ==> !is_space(text[0]) && !is_space(text.last())
}

/// Where `c` first stands in `text`, or the length of `text` if nowhere.
pub open spec fn position(text: Seq<char>, c: char) -> int
    decreases text.len(),
{
    if text.len() == 0 || text[0] == c {
        0
    } else {
        1 + position(text.skip(1), c)
    }
}

/// The pieces of `text` between the occurrences of `separator`; one more piece
/// than there are separators.
pub open spec fn pieces(text: Seq<char>, separator: char) -> Seq<Seq<char>>
    decreases text.len(),
{
    let at = position(text, separator);
    if 0 <= at < text.len() {
        seq![text.take(at)] + pieces(text.skip(at + 1), separator)
    } else {
        seq![text]
    }
}

/// Whether `pattern` stands in `text` at index `at`.
pub open spec fn stands_at(text: Seq<char>, pattern: Seq<char>, at: int) -> bool {
    &&& 0 <= at
    &&& at + pattern.len() <= text.len()
    &&& text.subrange(at, at + pattern.len()) == pattern
}

/// Whether `pattern` stands anywhere in `text`.
pub open spec fn holds(text: Seq<char>, pattern: Seq<char>) -> bool {
    exists|at: int| stands_at(text, pattern, at)
}

/// The character for one decimal digit.
pub open spec fn digit_char(n: nat) -> char {
    (48 + n) as char
}

/// `n` in decimal, without leading zeros.
pub open spec fn decimal(n: nat) -> Seq<char>
    decreases n,
{
    if n < 10 {
        seq![digit_char(n)]
    } else {
        decimal(n / 10).push(digit_char(n % 10))
    }
}

/// Trimming leaves no white space at either end, and text without any as it is.
pub proof fn lemma_trimmed(text: Seq<char>)
    ensures
        is_trimmed(trimmed(text)),
        is_trimmed(text) ==> trimmed(text) == text,
{
    lemma_without_leading_space(text);
    lemma_without_trailing_space(without_leading_space(text));
}

proof fn lemma_without_leading_space(text: Seq<char>)
    ensures
        without_leading_space(text).len() > 0 ==> !is_space(without_leading_space(text)[0]),
    decreases text.len(),
{
    if text.len() > 0 && is_space(text[0]) {
        lemma_without_leading_space(text.skip(1));
    }
}

proof fn lemma_without_trailing_space(text: Seq<char>)
    ensures
        without_trailing_space(text).len() > 0 ==> without_trailing_space(text)[0] == text[0]
            && !is_space(without_trailing_space(text).last()),
    decreases text.len(),
{
    if text.len() > 0 && is_space(text.last()) {
        lemma_without_trailing_space(text.drop_last());
    }
}

/// Trimming keeps a stretch of the text.
pub proof fn lemma_trimmed_is_part(text: Seq<char>)
    ensures
        forall|i: int| 0 <= i < trimmed(text).len() ==> text.contains(#[trigger] trimmed(text)[i]),
{
    let rest = without_leading_space(text);
    lemma_leading_part(text);
    lemma_trailing_part(rest);
    assert forall|i: int| 0 <= i < trimmed(text).len() implies text.contains(
        #[trigger] trimmed(text)[i],
    ) by {
        assert(trimmed(text)[i] == text[i + text.len() - rest.len()]);
    }
}

proof fn lemma_leading_part(text: Seq<char>)
    ensures
        without_leading_space(text).len() <= text.len(),
        without_leading_space(text) == text.skip(text.len() - without_leading_space(text).len()),
    decreases text.len(),
{
    let kept = without_leading_space(text).len();
    if text.len() > 0 && is_space(text[0]) {
        lemma_leading_part(text.skip(1));
        assert(text.skip(1).skip(text.len() - 1 - kept) =~= text.skip(text.len() - kept));
    } else {
        assert(text.skip(0) =~= text);
    }
}

proof fn lemma_trailing_part(text: Seq<char>)
    ensures
        without_trailing_space(text).len() <= text.len(),
        without_trailing_space(text) == text.take(without_trailing_space(text).len() as int),
    decreases text.len(),
{
    let kept = without_trailing_space(text).len();
    if text.len() > 0 && is_space(text.last()) {
        lemma_trailing_part(text.drop_last());
        assert(text.drop_last().take(kept as int) =~= text.take(kept as int));
    } else {
        assert(text.take(text.len() as int) =~= text);
    }
}

/// No piece of a text holds the separator.
pub proof fn lemma_pieces_hold_no_separator(text: Seq<char>, separator: char)
    ensures
        forall|i: int|
            0 <= i < pieces(text, separator).len() ==> !(#[trigger] pieces(
                text,
                separator,
            )[i]).contains(separator),
    decreases text.len(),
{
    lemma_position(text, separator);
    let at = position(text, separator);
    if at < text.len() {
        let rest = text.skip(at + 1);
        lemma_pieces_hold_no_separator(rest, separator);
        assert forall|i: int| 0 <= i < pieces(text, separator).len() implies !(
        #[trigger] pieces(text, separator)[i]).contains(separator) by {
            if i > 0 {
                assert(pieces(text, separator)[i] == pieces(rest, separator)[i - 1]);
            } else {
                assert(pieces(text, separator)[0] == text.take(at));
            }
        }
    } else {
        assert(pieces(text, separator)[0] == text);
    }
}

/// The pieces of two texts with a separator between them are those of the one
/// and then those of the other.
pub proof fn lemma_pieces_of_joined(a: Seq<char>, b: Seq<char>, separator: char)
    ensures
        pieces(a + seq![separator] + b, separator) == pieces(a, separator) + pieces(b, separator),
    decreases a.len(),
{
    let joined = a + seq![separator] + b;
    let at = position(a, separator);
    lemma_position(a, separator);
    assert(joined[at] == separator);
    assert forall|i: int| 0 <= i < at implies joined[i] != separator by {
        assert(joined[i] == a[i]);
    }
    lemma_position_is(joined, separator, at);
    if at < a.len() {
        let rest = a.skip(at + 1);
        lemma_pieces_of_joined(rest, b, separator);
        assert(joined.skip(at + 1) =~= rest + seq![separator] + b);
        assert(joined.take(at) =~= a.take(at));
        assert(pieces(joined, separator) =~= pieces(a, separator) + pieces(b, separator));
    } else {
        assert(joined.take(at) =~= a);
        assert(joined.skip(at + 1) =~= b);
    }
}

/// `position` is the first place of `c`, and the length where there is none.
pub proof fn lemma_position(text: Seq<char>, c: char)
    ensures
        0 <= position(text, c) <= text.len(),
        forall|i: int| 0 <= i < position(text, c) ==> text[i] != c,
        position(text, c) < text.len() ==> text[position(text, c)] == c,
    decreases text.len(),
{
    if text.len() > 0 && text[0] != c {
        lemma_position(text.skip(1), c);
        assert forall|i: int| 0 <= i < position(text, c) implies text[i] != c by {
            if i > 0 {
                assert(text[i] == text.skip(1)[i - 1]);
            }
        }
    }
}

/// An index before which `c` does not stand, and which holds `c` or is the end
/// of `text`, is the position of `c`.
pub proof fn lemma_position_is(text: Seq<char>, c: char, at: int)
    requires
        0 <= at <= text.len(),
        forall|i: int| 0 <= i < at ==> text[i] != c,
        at < text.len() ==> text[at] == c,
    ensures
        position(text, c) == at,
{
    lemma_position(text, c);
    let found = position(text, c);
    if found < at {
        assert(text[found] != c);
    }
}

/// Whether `c` is white space.
pub fn space(c: char) -> (r: bool)
    ensures
        r == is_space(c),
{
    ('\u{9}' <= c && c <= '\u{d}') || c == ' ' || c == '\u{85}' || c == '\u{a0}' || c == '\u{1680}'
        || ('\u{2000}' <= c && c <= '\u{200a}') || c == '\u{2028}' || c == '\u{2029}' || c
        == '\u{202f}' || c == '\u{205f}' || c == '\u{3000}'
}

/// The characters of `text`.
pub fn chars(text: &str) -> (r: Vec<char>)
    ensures
        r@ == text@,
{
    let mut r: Vec<char> = Vec::new();
    for c in it: text.chars()
        invariant
            r@ == it.seq().take(it.index() as int),
    {
        r.push(c);
    }
    r
}

/// The text made of `list[from..to]`.
pub fn slice(list: &Vec<char>, from: usize, to: usize) -> (r: String)
    requires
        from <= to <= list@.len(),
    ensures
        r@ == list@.subrange(from as int, to as int),
{
    let mut r = String::new();
    let mut i: usize = from;
    while i < to
        invariant
            from <= i <= to <= list@.len(),
            r@ == list@.subrange(from as int, i as int),
        decreases to - i,
    {
        r.push(list[i]);
        i = i + 1;
        assert(r@ =~= list@.subrange(from as int, i as int));
    }
    r
}

/// The first character of `text` and what follows it, if that character is
/// ASCII.
pub fn split_ascii<'a>(text: &'a str) -> (r: Option<(char, &'a str)>)
    ensures
        r is Some <==> text@.len() > 0 && text@[0] <= '\u{7f}',
        r is Some ==> (r->0).0 == text@[0] && (r->0).1@ == text@.skip(1),
{
    if text.is_empty() {
        return None;
    }
    let first = text.get_char(0);
    if first > '\u{7f}' {
        return None;
    }
    let ghost following = text@.drop_first();
    let ghost bytes = encode_utf8(text@);
    proof {
        encode_utf8_first_scalar(text@);
        encode_utf8_valid_utf8(text@);
        assert(encode_scalar(first as u32).len() == 1);
        assert(pop_first_scalar(bytes) =~= encode_utf8(following));
        is_char_boundary_start_end_of_seq(pop_first_scalar(bytes));
        assert(is_char_boundary(bytes, 1));
    }
    let (_, rest) = text.split_at(1);
    proof {
        encode_utf8_decode_utf8(rest@);
        encode_utf8_decode_utf8(following);
        assert(encode_utf8(rest@) =~= encode_utf8(following));
        assert(following =~= text@.skip(1));
    }
    Some((first, rest))
}

/// Whether two texts are the same.
pub fn same(a: &str, b: &str) -> (r: bool)
    ensures
        r == (a@ == b@),
{
    a.to_string() == b.to_string()
}

/// `text` without white space at either end.
pub fn trim(text: &str) -> (r: String)
    ensures
        r@ == trimmed(text@),
{
    let list = chars(text);
    let mut from: usize = 0;
    assert(text@.skip(0) =~= text@);
    while from < list.len() && space(list[from])
        invariant
            from <= list@.len(),
            list@ == text@,
            without_leading_space(text@) == without_leading_space(text@.skip(from as int)),
        decreases list@.len() - from,
    {
        assert(text@.skip(from as int).skip(1) =~= text@.skip(from + 1));
        from = from + 1;
    }
    let ghost rest = text@.skip(from as int);
    let mut to: usize = list.len();
    assert(text@.subrange(from as int, to as int) =~= rest);
    while from < to && space(list[to - 1])
        invariant
            from <= to <= list@.len(),
            list@ == text@,
            rest == text@.skip(from as int),
            without_trailing_space(rest) == without_trailing_space(
                text@.subrange(from as int, to as int),
            ),
        decreases to,
    {
        assert(text@.subrange(from as int, to as int).drop_last() =~= text@.subrange(
            from as int,
            to - 1,
        ));
        to = to - 1;
    }
    slice(&list, from, to)
}

/// The pieces of `text` between the occurrences of `separator`.
pub fn split(text: &str, separator: char) -> (r: Vec<String>)
    ensures
        r.deep_view() == pieces(text@, separator),
{
    let list = chars(text);
    let mut r: Vec<String> = Vec::new();
    let mut from: usize = 0;
    let mut at: usize = 0;
    assert(text@.skip(0) =~= text@);
    assert(r.deep_view() + pieces(text@, separator) =~= pieces(text@, separator));
    while at < list.len()
        invariant
            from <= at <= list@.len(),
            list@ == text@,
            forall|i: int| from <= i < at ==> text@[i] != separator,
            r.deep_view() + pieces(text@.skip(from as int), separator) == pieces(text@, separator),
        decreases list@.len() - at,
    {
        if list[at] == separator {
            let ghost rest = text@.skip(from as int);
            let ghost done = r.deep_view();
            proof {
                lemma_position_is(rest, separator, at - from);
                assert(rest.take(at - from) =~= text@.subrange(from as int, at as int));
                assert(rest.skip(at - from + 1) =~= text@.skip(at + 1));
            }
            r.push(slice(&list, from, at));
            assert(r.deep_view() =~= done.push(text@.subrange(from as int, at as int)));
            from = at + 1;
            assert(r.deep_view() + pieces(text@.skip(from as int), separator) =~= done + pieces(
                rest,
                separator,
            ));
        }
        at = at + 1;
    }
    let ghost rest = text@.skip(from as int);
    let ghost done = r.deep_view();
    proof {
        lemma_position_is(rest, separator, at - from);
        assert(rest =~= text@.subrange(from as int, at as int));
    }
    r.push(slice(&list, from, at));
    assert(r.deep_view() =~= done + seq![rest]);
    r
}

/// Where `c` first stands in `list`, or its length if nowhere.
pub fn find(list: &Vec<char>, c: char) -> (r: usize)
    ensures
        r == position(list@, c),
{
    let mut at: usize = 0;
    while at < list.len() && list[at] != c
        invariant
            at <= list@.len(),
            forall|i: int| 0 <= i < at ==> list@[i] != c,
        decreases list@.len() - at,
    {
        at = at + 1;
    }
    proof {
        lemma_position_is(list@, c, at as int);
    }
    at
}

/// Whether `pattern` stands anywhere in `text`.
pub fn contains(text: &str, pattern: &str) -> (r: bool)
    ensures
        r == holds(text@, pattern@),
{
    let list = chars(text);
    let sought = chars(pattern);
    if sought.len() > list.len() {
        return false;
    }
    let last: usize = list.len() - sought.len();
    let mut at: usize = 0;
    loop
        invariant
            at <= last,
            last + sought@.len() == list@.len() <= usize::MAX,
            list@ == text@,
            sought@ == pattern@,
            forall|i: int| 0 <= i < at ==> !stands_at(text@, pattern@, i),
        decreases last - at,
    {
        let mut matched: usize = 0;
        while matched < sought.len() && list[at + matched] == sought[matched]
            invariant
                matched <= sought@.len(),
                at + sought@.len() <= list@.len() <= usize::MAX,
                forall|i: int| 0 <= i < matched ==> list@[at + i] == sought@[i],
            decreases sought@.len() - matched,
        {
            matched = matched + 1;
        }
        let ghost window = text@.subrange(at as int, at + pattern@.len());
        if matched == sought.len() {
            assert(window =~= pattern@);
            assert(stands_at(text@, pattern@, at as int));
            return true;
        }
        assert(window[matched as int] != pattern@[matched as int]);
        if at == last {
            return false;
        }
        at = at + 1;
    }
}

/// `n` in decimal.
pub fn number(n: u64) -> (r: String)
    ensures
        r@ == decimal(n as nat),
    decreases n,
{
    let digit: u8 = (n % 10) as u8;
    let mut r = if n < 10 {
        String::new()
    } else {
        number(n / 10)
    };
    r.push((48 + digit) as char);
    assert(r@ =~= decimal(n as nat));
    r
}

/// White space is what Unicode calls so, by its code points.
pub proof fn law_white_space_is_what_unicode_calls_so(c: char)
    ensures
        is_space(c) <==> {
            let code = c as u32;
            ||| 9 <= code <= 13
            ||| code == 32
            ||| code == 133
            ||| code == 160
            ||| code == 5760
            ||| 8192 <= code <= 8202
            ||| code == 8232
            ||| code == 8233
            ||| code == 8239
            ||| code == 8287
            ||| code == 12288
        },
{
}

/// Whether `text` is white space throughout.
pub open spec fn blank(text: Seq<char>) -> bool {
    forall|i: int| 0 <= i < text.len() ==> is_space(#[trigger] text[i])
}

/// Trimming takes the white space off both ends of a text and leaves the rest
/// as it is.
pub proof fn law_trimming_takes_off_white_space(
    leading: Seq<char>,
    text: Seq<char>,
    trailing: Seq<char>,
)
    requires
        blank(leading),
        blank(trailing),
        is_trimmed(text),
    ensures
        trimmed(leading + text + trailing) == text,
{
    lemma_leading_taken_off(leading, text + trailing);
    assert(leading + text + trailing =~= leading + (text + trailing));
    if text.len() == 0 {
        assert(text + trailing =~= trailing);
        lemma_leading_taken_off(trailing, Seq::<char>::empty());
        assert(trailing + Seq::<char>::empty() =~= trailing);
        assert(text =~= Seq::<char>::empty());
    } else {
        assert((text + trailing)[0] == text[0]);
        assert(without_leading_space(text + trailing) == text + trailing);
        lemma_trailing_taken_off(text, trailing);
    }
}

proof fn lemma_leading_taken_off(leading: Seq<char>, text: Seq<char>)
    requires
        blank(leading),
    ensures
        without_leading_space(leading + text) == without_leading_space(text),
    decreases leading.len(),
{
    if leading.len() == 0 {
        assert(leading + text =~= text);
    } else {
        let rest = leading.skip(1);
        assert(is_space(leading[0]));
        assert forall|i: int| 0 <= i < rest.len() implies is_space(#[trigger] rest[i]) by {
            assert(rest[i] == leading[i + 1]);
        }
        lemma_leading_taken_off(rest, text);
        assert((leading + text).skip(1) =~= rest + text);
    }
}

proof fn lemma_trailing_taken_off(text: Seq<char>, trailing: Seq<char>)
    requires
        blank(trailing),
    ensures
        without_trailing_space(text + trailing) == without_trailing_space(text),
    decreases trailing.len(),
{
    if trailing.len() == 0 {
        assert(text + trailing =~= text);
    } else {
        let rest = trailing.drop_last();
        assert(is_space(trailing[trailing.len() - 1]));
        assert forall|i: int| 0 <= i < rest.len() implies is_space(#[trigger] rest[i]) by {
            assert(rest[i] == trailing[i]);
        }
        lemma_trailing_taken_off(text, rest);
        assert((text + trailing).drop_last() =~= text + rest);
        assert((text + trailing).last() == trailing.last());
    }
}

/// Only white space is trimmed away altogether.
pub proof fn lemma_trimmed_away(text: Seq<char>)
    requires
        trimmed(text).len() == 0,
    ensures
        blank(text),
{
    let rest = without_leading_space(text);
    lemma_without_leading_space(text);
    lemma_trailing_part(rest);
    if rest.len() > 0 {
        lemma_all_trailing(rest);
        assert(is_space(rest[0]));
    }
    lemma_all_leading(text);
}

proof fn lemma_all_trailing(text: Seq<char>)
    requires
        without_trailing_space(text).len() == 0,
    ensures
        blank(text),
    decreases text.len(),
{
    if text.len() > 0 {
        lemma_all_trailing(text.drop_last());
        assert forall|i: int| 0 <= i < text.len() implies is_space(#[trigger] text[i]) by {
            if i < text.len() - 1 {
                assert(text[i] == text.drop_last()[i]);
            }
        }
    }
}

proof fn lemma_all_leading(text: Seq<char>)
    requires
        without_leading_space(text).len() == 0,
    ensures
        blank(text),
    decreases text.len(),
{
    if text.len() > 0 {
        lemma_all_leading(text.skip(1));
        assert forall|i: int| 0 <= i < text.len() implies is_space(#[trigger] text[i]) by {
            if i > 0 {
                assert(text[i] == text.skip(1)[i - 1]);
            }
        }
    }
}

/// The number that decimal digits write.
pub open spec fn decimal_value(digits: Seq<char>) -> int
    decreases digits.len(),
{
    if digits.len() == 0 {
        0
    } else {
        10 * decimal_value(digits.drop_last()) + (digits.last() as int - '0' as int)
    }
}

/// A number is written in digits that read as that number, without leading
/// zeros.
pub proof fn law_a_number_is_written_in_decimal(n: nat)
    ensures
        decimal_value(decimal(n)) == n,
        decimal(n).len() > 0,
        decimal(n)[0] == '0' ==> n == 0 && decimal(n).len() == 1,
        forall|i: int| 0 <= i < decimal(n).len() ==> '0' <= (#[trigger] decimal(n)[i]) && decimal(
            n,
        )[i] <= '9',
    decreases n,
{
    assert(digit_char(n % 10) as int == 48 + n % 10);
    if n < 10 {
        assert(decimal(n).drop_last() =~= seq![]);
        reveal_with_fuel(decimal_value, 2);
    } else {
        law_a_number_is_written_in_decimal(n / 10);
        assert(decimal(n).drop_last() =~= decimal(n / 10));
        assert(decimal(n)[0] == decimal(n / 10)[0]);
        assert forall|i: int| 0 <= i < decimal(n).len() implies '0' <= (#[trigger] decimal(n)[i])
            && decimal(n)[i] <= '9' by {
            if i < decimal(n / 10).len() {
                assert(decimal(n)[i] == decimal(n / 10)[i]);
            }
        }
    }
}

/// A text without the separator is one piece.
pub proof fn law_text_without_a_separator_is_one_piece(text: Seq<char>, separator: char)
    requires
        !text.contains(separator),
    ensures
        pieces(text, separator) == seq![text],
{
    lemma_position(text, separator);
    if position(text, separator) < text.len() {
        assert(text.contains(text[position(text, separator)]));
    }
}

} // verus!
