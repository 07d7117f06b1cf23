//! XML, as the pull parser of `quick_xml` reads it: a document is the sequence
//! of tokens the parser hands out before its end or its first error.

use quick_xml::events::Event;
use vstd::prelude::*;
use vstd::string::*;

use crate::text;

verus! {

/// One piece of a document. What the bot does not look at (comments,
/// declarations, self-closing tags and the like) is `Other`.
#[derive(Debug, PartialEq, Eq)]
pub enum Token {
    /// A start tag, by its name.
    Start(String),
    /// An end tag, by its name.
    End(String),
    /// Text between tags, with its line ends normalised.
    Text(String),
    /// The content of a CDATA section.
    CData(String),
    /// A reference `&name;`, by what stands between `&` and `;`.
    Reference(String),
    Other,
}

/// A [`Token`] over its text.
pub enum TokenView {
    Start(Seq<char>),
    End(Seq<char>),
    Text(Seq<char>),
    CData(Seq<char>),
    Reference(Seq<char>),
    Other,
}

impl View for Token {
    type V = TokenView;

    open spec fn view(&self) -> TokenView {
        match *self {
            Token::Start(name) => TokenView::Start(name@),
            Token::End(name) => TokenView::End(name@),
            Token::Text(text) => TokenView::Text(text@),
            Token::CData(text) => TokenView::CData(text@),
            Token::Reference(name) => TokenView::Reference(name@),
            Token::Other => TokenView::Other,
        }
    }
}

impl DeepView for Token {
    type V = TokenView;

    open spec fn deep_view(&self) -> TokenView {
        self.view()
    }
}

/// The parser itself.
#[verifier::external_type_specification]
#[verifier::external_body]
#[verifier::reject_recursive_types(R)]
pub struct ExReader<R>(quick_xml::Reader<R>);

/// The tokens of the document `xml`, up to its end or to the first error.
pub uninterp spec fn tokens(xml: Seq<char>) -> Seq<TokenView>;

/// The tokens that `reader` will hand out before its end or its next error.
pub uninterp spec fn unread(reader: quick_xml::Reader<&[u8]>) -> Seq<TokenView>;

/// The elements that are open after `tokens`, outermost first; nothing if some
/// end tag does not close the element opened last.
pub open spec fn open_elements(tokens: Seq<TokenView>) -> Option<Seq<Seq<char>>>
    decreases tokens.len(),
{
    if tokens.len() == 0 {
        Some(seq![])
    } else {
        match (open_elements(tokens.drop_last()), tokens.last()) {
            (None, _) => None,
            (Some(open), TokenView::Start(name)) => Some(open.push(name)),
            (Some(open), TokenView::End(name)) => if open.len() > 0 && open.last() == name {
                Some(open.drop_last())
            } else {
                None
            },
            (Some(open), _) => Some(open),
        }
    }
}

/// The value of a digit in a base up to 16, or that base if `c` is none.
pub open spec fn digit_value(c: char, base: nat) -> nat {
    let value = if '0' <= c <= '9' {
        (c as nat - '0' as nat) as nat
    } else if 'a' <= c <= 'f' {
        (c as nat - 'a' as nat + 10) as nat
    } else if 'A' <= c <= 'F' {
        (c as nat - 'A' as nat + 10) as nat
    } else {
        base
    };
    if value < base {
        value
    } else {
        base
    }
}

/// The number that `digits` write in `base`; nothing if there are none, or if
/// one of them is no digit of that base.
pub open spec fn number_in(digits: Seq<char>, base: nat) -> Option<nat>
    decreases digits.len(),
{
    if digits.len() == 0 || digit_value(digits.last(), base) >= base {
        None
    } else if digits.len() == 1 {
        Some(digit_value(digits.last(), base))
    } else {
        match number_in(digits.drop_last(), base) {
            Some(front) => Some(front * base + digit_value(digits.last(), base)),
            None => None,
        }
    }
}

/// The character that the character reference `name` stands for: `#` and a
/// decimal number, or `#x` and a hexadecimal one. The number zero, and one that
/// is no Unicode scalar value, stand for none.
pub open spec fn referenced_char(name: Seq<char>) -> Option<char> {
    if name.len() > 0 && name[0] == '#' {
        let digits = name.skip(1);
        let code = if digits.len() > 0 && digits[0] == 'x' {
            number_in(digits.skip(1), 16)
        } else {
            number_in(digits, 10)
        };
        match code {
            Some(code) => if 0 < code <= 0xd7ff || 0xe000 <= code <= 0x10ffff {
                Some(code as char)
            } else {
                None
            },
            None => None,
        }
    } else {
        None
    }
}

/// `quick_xml::Reader::from_str`: a parser at the start of `xml`. It checks end
/// tags against start tags unless told otherwise, so every end tag it hands out
/// closes the element that was opened last.
#[verifier::external_body]
pub(crate) fn open_document<'x>(xml: &'x str) -> (r: quick_xml::Reader<&'x [u8]>)
    ensures
        unread(r) == tokens(xml@),
        open_elements(unread(r)) is Some,
{
    quick_xml::Reader::from_str(xml)
}

/// `quick_xml::Reader::read_event`: the next token, and the parser after it;
/// nothing at the end of the document or at an error. Names are taken with
/// `name`, text with `xml10_content`, the rest with `into_inner`. What the
/// parser would hand out after an error is left open.
#[verifier::external_body]
pub(crate) fn next_token<'x>(reader: &mut quick_xml::Reader<&'x [u8]>) -> (r: Option<Token>)
    ensures
        unread(*old(reader)).len() == 0 ==> r is None,
        unread(*old(reader)).len() > 0 ==> r.deep_view() == Some(unread(*old(reader))[0]),
        unread(*old(reader)).len() > 0 ==> unread(*final(reader)) == unread(
            *old(reader),
        ).drop_first(),
{
    match reader.read_event() {
        Ok(Event::Eof) | Err(_) => None,
        Ok(Event::Start(e)) => Some(Token::Start(e.name().as_ref().to_string())),
        Ok(Event::End(e)) => Some(Token::End(e.name().as_ref().to_string())),
        Ok(Event::Text(t)) => Some(Token::Text(t.xml10_content().into_owned())),
        Ok(Event::CData(c)) => Some(Token::CData(c.into_inner().into_owned())),
        Ok(Event::GeneralRef(r)) => Some(Token::Reference(r.into_inner().into_owned())),
        Ok(_) => Some(Token::Other),
    }
}

/// `quick_xml::events::BytesRef::resolve_char_ref`, a name it makes no sense of
/// taken as one that stands for no character.
#[verifier::external_body]
pub(crate) fn resolve_char_ref(name: &str) -> (r: Option<char>)
    ensures
        r == referenced_char(name@),
{
    quick_xml::events::BytesRef::new(name).resolve_char_ref().ok().flatten()
}

/// The text that the reference `name` stands for: a character by its number, or
/// one of the five entities that XML predefines. Any other has none.
pub open spec fn reference_text(name: Seq<char>) -> Seq<char> {
    match referenced_char(name) {
        Some(c) => seq![c],
        None => if name == "amp"@ {
            "&"@
        } else if name == "lt"@ {
            "<"@
        } else if name == "gt"@ {
            ">"@
        } else if name == "quot"@ {
            "\""@
        } else if name == "apos"@ {
            "'"@
        } else {
            seq![]
        },
    }
}

/// Resolves one reference to its text.
pub fn entity(name: &str) -> (r: String)
    ensures
        r@ == reference_text(name@),
{
    match resolve_char_ref(name) {
        Some(c) => {
            let mut r = String::new();
            r.push(c);
            assert(r@ =~= seq![c]);
            r
        },
        None => if text::same(name, "amp") {
            "&".to_string()
        } else if text::same(name, "lt") {
            "<".to_string()
        } else if text::same(name, "gt") {
            ">".to_string()
        } else if text::same(name, "quot") {
            "\"".to_string()
        } else if text::same(name, "apos") {
            "'".to_string()
        } else {
            let r = String::new();
            assert(r@ =~= seq![]);
            r
        },
    }
}

/// The five entities that XML predefines stand for their characters, and a
/// reference that is neither one of them nor a number stands for nothing.
pub proof fn law_five_names_are_predefined(name: Seq<char>)
    ensures
        reference_text("amp"@) == "&"@,
        reference_text("lt"@) == "<"@,
        reference_text("gt"@) == ">"@,
        reference_text("quot"@) == "\""@,
        reference_text("apos"@) == "'"@,
        (name.len() == 0 || name[0] != '#') && name != "amp"@ && name != "lt"@ && name != "gt"@
            && name != "quot"@ && name != "apos"@ ==> reference_text(name).len() == 0,
{
    reveal_strlit("amp");
    reveal_strlit("lt");
    reveal_strlit("gt");
    reveal_strlit("quot");
    reveal_strlit("apos");
    assert("amp"@[0] == 'a' && "lt"@[0] == 'l' && "gt"@[0] == 'g' && "quot"@[0] == 'q'
        && "apos"@[0] == 'a');
    assert("amp"@.len() == 3 && "apos"@.len() == 4);
}

/// A reference by number stands for the character of that number, if there is
/// one.
pub proof fn law_a_number_stands_for_its_character(n: nat, c: char)
    ensures
        c as nat == n && n > 0 ==> reference_text("#"@ + text::decimal(n)) == seq![c],
        n == 0 || 0xd800 <= n <= 0xdfff || n > 0x10ffff ==> reference_text(
            "#"@ + text::decimal(n),
        ).len() == 0,
{
    reveal_strlit("#");
    let digits = text::decimal(n);
    let name = "#"@ + digits;
    text::law_a_number_is_written_in_decimal(n);
    lemma_decimal_number(n);
    assert(name[0] == '#');
    assert(name.skip(1) =~= digits);
    assert(digits[0] != 'x');
    reveal_strlit("amp");
    reveal_strlit("lt");
    reveal_strlit("gt");
    reveal_strlit("quot");
    reveal_strlit("apos");
    assert("amp"@[0] == 'a' && "lt"@[0] == 'l' && "gt"@[0] == 'g' && "quot"@[0] == 'q'
        && "apos"@[0] == 'a');
}

proof fn lemma_decimal_number(n: nat)
    ensures
        number_in(text::decimal(n), 10) == Some(n),
    decreases n,
{
    assert(text::digit_char(n % 10) as int == 48 + n % 10);
    if n >= 10 {
        lemma_decimal_number(n / 10);
        text::law_a_number_is_written_in_decimal(n / 10);
        assert(text::decimal(n).drop_last() =~= text::decimal(n / 10));
        assert(text::decimal(n).last() == text::digit_char(n % 10));
    }
}

/// A reference to a character stands for that character alone, however its
/// number is written, and one to none stands for nothing.
pub proof fn law_a_referenced_character_stands_alone(name: Seq<char>, c: char)
    ensures
        referenced_char(name) == Some(c) ==> reference_text(name) == seq![c],
        name.len() > 0 && name[0] == '#' && referenced_char(name) is None ==> reference_text(
            name,
        ).len() == 0,
{
    reveal_strlit("amp");
    reveal_strlit("lt");
    reveal_strlit("gt");
    reveal_strlit("quot");
    reveal_strlit("apos");
    assert("amp"@[0] == 'a' && "lt"@[0] == 'l' && "gt"@[0] == 'g' && "quot"@[0] == 'q'
        && "apos"@[0] == 'a');
}

/// A token is seen as its kind and its text.
pub proof fn law_a_token_is_its_kind_and_text(token: Token)
    ensures
        token.deep_view() == token@,
        token is Start ==> token@ == TokenView::Start(token->Start_0@),
        token is End ==> token@ == TokenView::End(token->End_0@),
        token is Text ==> token@ == TokenView::Text(token->Text_0@),
        token is CData ==> token@ == TokenView::CData(token->CData_0@),
        token is Reference ==> token@ == TokenView::Reference(token->Reference_0@),
        token is Other ==> token@ is Other,
{
}

} // verus!
