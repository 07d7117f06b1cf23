//! The blog feed: RSS, of which each `<item>` is an entry. The link is the text
//! of `<link>`, and the id that of `<guid>`, which WordPress keeps stable even
//! when a post is renamed or its URL changes.

use vstd::prelude::*;
use vstd::string::*;

use crate::model::{Entry, EntryView};
use crate::text;
use crate::xml;
use crate::xml::{Token, TokenView};

verus! {

/// The elements of an item whose text is collected.
#[derive(Debug, Clone, Copy, PartialEq, Eq, Structural)]
pub enum Field {
    Title,
    Link,
    Guid,
}

/// The field that the element `name` is.
pub open spec fn field_named(name: Seq<char>) -> Option<Field> {
    if name == "title"@ {
        Some(Field::Title)
    } else if name == "link"@ {
        Some(Field::Link)
    } else if name == "guid"@ {
        Some(Field::Guid)
    } else {
        None
    }
}

/// The entry of an item whose fields hold these texts. There is none without a
/// title or without a link; the link stands in for a `guid` that is missing.
pub open spec fn item_entry(title: Seq<char>, link: Seq<char>, guid: Seq<char>) -> Option<
    EntryView,
> {
    let title = text::trimmed(title);
    let link = text::trimmed(link);
    let guid = text::trimmed(guid);
    if title.len() > 0 && link.len() > 0 {
        Some(EntryView { id: if guid.len() > 0 { guid } else { link }, title, link })
    } else {
        None
    }
}

/// What has been read of a document: the entries so far, whether an item is
/// open, which field of it text belongs to, and the texts of its fields.
pub struct CollectorView {
    pub entries: Seq<EntryView>,
    pub in_item: bool,
    pub field: Option<Field>,
    pub title: Seq<char>,
    pub link: Seq<char>,
    pub guid: Seq<char>,
}

/// Nothing has been read.
pub open spec fn nothing_read() -> CollectorView {
    CollectorView {
        entries: seq![],
        in_item: false,
        field: None,
        title: seq![],
        link: seq![],
        guid: seq![],
    }
}

impl CollectorView {
    /// With `text` added to the field that is being read.
    pub open spec fn with_text(self, text: Seq<char>) -> CollectorView {
        match self.field {
            Some(Field::Title) => CollectorView { title: self.title + text, ..self },
            Some(Field::Link) => CollectorView { link: self.link + text, ..self },
            Some(Field::Guid) => CollectorView { guid: self.guid + text, ..self },
            None => self,
        }
    }

    /// After the start tag `name`.
    pub open spec fn with_start(self, name: Seq<char>) -> CollectorView {
        if name == "item"@ {
            CollectorView { in_item: true, title: seq![], link: seq![], guid: seq![], ..self }
        } else if self.in_item && field_named(name) is Some {
            CollectorView { field: field_named(name), ..self }
        } else {
            self
        }
    }

    /// After the end tag `name`.
    pub open spec fn with_end(self, name: Seq<char>) -> CollectorView {
        if field_named(name) is Some {
            CollectorView { field: None, ..self }
        } else if name == "item"@ {
            CollectorView {
                entries: match item_entry(self.title, self.link, self.guid) {
                    Some(entry) => self.entries.push(entry),
                    None => self.entries,
                },
                in_item: false,
                ..self
            }
        } else {
            self
        }
    }

    /// After one more token.
    pub open spec fn with(self, token: TokenView) -> CollectorView {
        match token {
            TokenView::Start(name) => self.with_start(name),
            TokenView::End(name) => self.with_end(name),
            TokenView::Text(text) => self.with_text(text),
            TokenView::CData(text) => self.with_text(text),
            TokenView::Reference(name) => self.with_text(xml::reference_text(name)),
            TokenView::Other => self,
        }
    }

    /// After more tokens.
    pub open spec fn with_all(self, tokens: Seq<TokenView>) -> CollectorView
        decreases tokens.len(),
    {
        if tokens.len() == 0 {
            self
        } else {
            self.with_all(tokens.drop_last()).with(tokens.last())
        }
    }
}

/// The entries of the document that has these tokens.
pub open spec fn entries_in(tokens: Seq<TokenView>) -> Seq<EntryView> {
    nothing_read().with_all(tokens).entries
}

/// Collects the entries of a document token by token.
pub struct Collector {
    entries: Vec<Entry>,
    in_item: bool,
    // Only set for the three fields collected, so a post body or a
    // channel-level element can never leak into an entry.
    field: Option<Field>,
    title: String,
    link: String,
    guid: String,
}

impl View for Collector {
    type V = CollectorView;

    closed spec fn view(&self) -> CollectorView {
        CollectorView {
            entries: self.entries.deep_view(),
            in_item: self.in_item,
            field: self.field,
            title: self.title@,
            link: self.link@,
            guid: self.guid@,
        }
    }
}

/// The field that the element `name` is.
fn named(name: &str) -> (r: Option<Field>)
    ensures
        r == field_named(name@),
{
    if text::same(name, "title") {
        Some(Field::Title)
    } else if text::same(name, "link") {
        Some(Field::Link)
    } else if text::same(name, "guid") {
        Some(Field::Guid)
    } else {
        None
    }
}

impl Collector {
    /// Nothing has been read.
    pub fn new() -> (r: Collector)
        ensures
            r@ == nothing_read(),
    {
        let r = Collector {
            entries: Vec::new(),
            in_item: false,
            field: None,
            title: String::new(),
            link: String::new(),
            guid: String::new(),
        };
        assert(r@.entries =~= seq![]);
        assert(r@.title =~= seq![]);
        assert(r@.link =~= seq![]);
        assert(r@.guid =~= seq![]);
        r
    }

    /// Takes in the next token.
    pub fn accept(&mut self, token: Token)
        ensures
            final(self)@ == old(self)@.with(token@),
    {
        match token {
            Token::Start(name) => self.start(&name),
            Token::End(name) => self.end(&name),
            Token::Text(text) => self.append(&text),
            Token::CData(text) => self.append(&text),
            Token::Reference(name) => self.append(&xml::entity(&name)),
            Token::Other => {},
        }
    }

    /// The entries read so far, in the order of the document.
    pub fn into_entries(self) -> (r: Vec<Entry>)
        ensures
            r.deep_view() == self@.entries,
    {
        self.entries
    }

    fn append(&mut self, text: &str)
        ensures
            final(self)@ == old(self)@.with_text(text@),
    {
        match self.field {
            Some(Field::Title) => self.title.append(text),
            Some(Field::Link) => self.link.append(text),
            Some(Field::Guid) => self.guid.append(text),
            None => {},
        }
    }

    fn start(&mut self, name: &str)
        ensures
            final(self)@ == old(self)@.with_start(name@),
    {
        if text::same(name, "item") {
            self.in_item = true;
            self.title = String::new();
            self.link = String::new();
            self.guid = String::new();
            assert(self@.title =~= seq![]);
            assert(self@.link =~= seq![]);
            assert(self@.guid =~= seq![]);
        } else if self.in_item {
            match named(name) {
                Some(field) => {
                    self.field = Some(field);
                },
                None => {},
            }
        }
    }

    fn end(&mut self, name: &str)
        ensures
            final(self)@ == old(self)@.with_end(name@),
    {
        if named(name).is_some() {
            self.field = None;
        } else if text::same(name, "item") {
            let title = text::trim(&self.title);
            let link = text::trim(&self.link);
            if !title.as_str().is_empty() && !link.as_str().is_empty() {
                let guid = text::trim(&self.guid);
                let id = if guid.as_str().is_empty() {
                    link.clone()
                } else {
                    guid
                };
                let ghost before = self.entries.deep_view();
                let entry = Entry { id, title, link };
                let ghost added = entry@;
                self.entries.push(entry);
                assert(self.entries.deep_view() =~= before.push(added));
            }
            self.in_item = false;
        }
    }
}

/// The entries of the blog feed `xml`, up to where it stops being XML; up to
/// there every end tag closes the element opened last. Post
/// bodies arrive as CDATA, so their markup can never be mistaken for feed
/// structure.
pub fn parse_rss(xml: &str) -> (r: Vec<Entry>)
    ensures
        r.deep_view() == entries_in(xml::tokens(xml@)),
        xml::open_elements(xml::tokens(xml@)) is Some,
{
    let ghost all = xml::tokens(xml@);
    let ghost mut read: int = 0;
    let mut reader = xml::open_document(xml);
    let mut collector = Collector::new();
    assert(all.take(0) =~= seq![]);
    assert(all.skip(0) =~= all);
    loop
        invariant_except_break
            0 <= read <= all.len(),
            xml::unread(reader) == all.skip(read),
            collector@ == nothing_read().with_all(all.take(read)),
        ensures
            collector@ == nothing_read().with_all(all),
        decreases all.len() - read,
    {
        match xml::next_token(&mut reader) {
            Some(token) => {
                proof {
                    assert(token@ == all[read]);
                    assert(all.take(read + 1).drop_last() =~= all.take(read));
                    assert(all.skip(read).drop_first() =~= all.skip(read + 1));
                    read = read + 1;
                }
                collector.accept(token);
            },
            None => {
                assert(all.take(read) =~= all);
                break;
            },
        }
    }
    collector.into_entries()
}

/// Whether, with these elements open, text stands inside a field of an item.
pub open spec fn inside_a_field(open: Seq<Seq<char>>) -> bool {
    exists|item: int, field: int|
        0 <= item < field < open.len() && #[trigger] open[item] == "item"@ && (
        #[trigger] open[field] == "title"@ || open[field] == "link"@ || open[field] == "guid"@)
}

/// A field is being read only inside an element of its name, inside an item.
proof fn lemma_field_is_open(tokens: Seq<TokenView>)
    requires
        xml::open_elements(tokens) is Some,
    ensures
        nothing_read().with_all(tokens).in_item ==> xml::open_elements(tokens)->0.contains("item"@),
        nothing_read().with_all(tokens).field is Some ==> inside_a_field(
            xml::open_elements(tokens)->0,
        ),
    decreases tokens.len(),
{
    if tokens.len() > 0 {
        reveal_strlit("item");
        reveal_strlit("title");
        reveal_strlit("link");
        reveal_strlit("guid");
        let before = tokens.drop_last();
        lemma_field_is_open(before);
        let state = nothing_read().with_all(before);
        let after = nothing_read().with_all(tokens);
        let open = xml::open_elements(before)->0;
        let now = xml::open_elements(tokens)->0;
        match tokens.last() {
            TokenView::Start(name) => {
                if open.contains("item"@) {
                    let item = choose|item: int| 0 <= item < open.len() && open[item] == "item"@;
                    assert(now[item] == "item"@);
                    if field_named(name) is Some {
                        assert(now[item] == "item"@ && now[open.len() as int] == name);
                    }
                }
                if name == "item"@ {
                    assert(now[open.len() as int] == "item"@);
                }
                if inside_a_field(open) {
                    let (item, field) = choose|item: int, field: int|
                        0 <= item < field < open.len() && #[trigger] open[item] == "item"@ && (
                        #[trigger] open[field] == "title"@ || open[field] == "link"@ || open[field]
                            == "guid"@);
                    assert(now[item] == "item"@ && now[field] == open[field]);
                }
            },
            TokenView::End(name) => {
                assert("item"@.len() == 4);
                assert("item"@[0] == 'i');
                assert(field_named("item"@) is None) by {
                    assert("title"@[0] == 't');
                    assert("link"@[0] == 'l');
                    assert("guid"@[0] == 'g');
                }
                if open.contains("item"@) && name != "item"@ {
                    let item = choose|item: int| 0 <= item < open.len() && open[item] == "item"@;
                    assert(now[item] == "item"@);
                }
                if inside_a_field(open) && after.field is Some {
                    let (item, field) = choose|item: int, field: int|
                        0 <= item < field < open.len() && #[trigger] open[item] == "item"@ && (
                        #[trigger] open[field] == "title"@ || open[field] == "link"@ || open[field]
                            == "guid"@);
                    assert(now[item] == "item"@ && now[field] == open[field]);
                }
            },
            _ => {},
        }
    }
}

/// Neither a post body nor a channel-level element leaks into an entry: text
/// that stands in no `<title>`, `<link>` or `<guid>` inside an `<item>` changes
/// nothing, whatever came before it in a document whose tags match.
pub proof fn law_text_outside_the_fields_is_ignored(tokens: Seq<TokenView>, token: TokenView)
    requires
        xml::open_elements(tokens) is Some,
        !inside_a_field(xml::open_elements(tokens)->0),
        token is Text || token is CData || token is Reference,
    ensures
        nothing_read().with_all(tokens.push(token)) == nothing_read().with_all(tokens),
{
    lemma_field_is_open(tokens);
    assert(tokens.push(token).drop_last() =~= tokens);
}

/// Every entry has a title, a link and an id, none of them with white space at
/// its ends.
pub proof fn law_entries_are_complete(tokens: Seq<TokenView>)
    ensures
        forall|i: int|
            0 <= i < entries_in(tokens).len() ==> {
                let entry = #[trigger] entries_in(tokens)[i];
                &&& entry.title.len() > 0
                &&& entry.link.len() > 0
                &&& entry.id.len() > 0
                &&& text::is_trimmed(entry.title)
                &&& text::is_trimmed(entry.link)
                &&& text::is_trimmed(entry.id)
            },
    decreases tokens.len(),
{
    if tokens.len() > 0 {
        let before = nothing_read().with_all(tokens.drop_last());
        law_entries_are_complete(tokens.drop_last());
        text::lemma_trimmed(before.title);
        text::lemma_trimmed(before.link);
        text::lemma_trimmed(before.guid);
        assert(before.entries == entries_in(tokens.drop_last()));
    }
}

/// A post keeps its id when it is renamed or its link changes, as long as its
/// `<guid>` stays.
pub proof fn law_a_renamed_post_keeps_its_id(
    title: Seq<char>,
    link: Seq<char>,
    new_title: Seq<char>,
    new_link: Seq<char>,
    guid: Seq<char>,
)
    requires
        text::trimmed(guid).len() > 0,
        item_entry(title, link, guid) is Some,
        item_entry(new_title, new_link, guid) is Some,
    ensures
        item_entry(title, link, guid)->0.id == item_entry(new_title, new_link, guid)->0.id,
        item_entry(title, link, guid)->0.id == text::trimmed(guid),
{
}

/// Reading on never changes an entry that has been read.
pub proof fn law_entries_stay(tokens: Seq<TokenView>, more: Seq<TokenView>)
    ensures
        entries_in(tokens).is_prefix_of(entries_in(tokens + more)),
    decreases more.len(),
{
    if more.len() == 0 {
        assert(tokens + more =~= tokens);
    } else {
        law_entries_stay(tokens, more.drop_last());
        assert((tokens + more).drop_last() =~= tokens + more.drop_last());
        let before = entries_in(tokens + more.drop_last());
        let after = entries_in(tokens + more);
        assert(before =~= after.take(before.len() as int));
        assert(entries_in(tokens) =~= after.take(entries_in(tokens).len() as int));
    }
}

/// Reading on from where no item is open adds what reading alone would give.
proof fn lemma_read_on(start: CollectorView, more: Seq<TokenView>)
    requires
        !start.in_item,
        start.field is None,
        xml::open_elements(more) is Some,
    ensures
        ({
            let alone = nothing_read().with_all(more);
            let on = start.with_all(more);
            &&& on.entries == start.entries + alone.entries
            &&& on.in_item == alone.in_item
            &&& on.field == alone.field
            &&& xml::open_elements(more)->0.contains("item"@) || alone.in_item
                || alone.field is Some ==> on.title == alone.title && on.link == alone.link
                && on.guid == alone.guid
        }),
    decreases more.len(),
{
    if more.len() == 0 {
        assert(start.entries + nothing_read().entries =~= start.entries);
    } else {
        let before = more.drop_last();
        lemma_read_on(start, before);
        let open = xml::open_elements(before)->0;
        let now = xml::open_elements(more)->0;
        let alone = nothing_read().with_all(before);
        let entries = start.entries + alone.entries;
        match more.last() {
            TokenView::Start(name) => {
                if now.contains("item"@) && name != "item"@ {
                    let k = choose|k: int| 0 <= k < now.len() && now[k] == "item"@;
                    assert(open[k] == "item"@);
                }
            },
            TokenView::End(name) => {
                assert(open[open.len() - 1] == name);
                if now.contains("item"@) {
                    let k = choose|k: int| 0 <= k < now.len() && now[k] == "item"@;
                    assert(open[k] == "item"@);
                }
                if let Some(entry) = item_entry(alone.title, alone.link, alone.guid) {
                    assert(entries.push(entry) =~= start.entries + alone.entries.push(entry));
                }
            },
            _ => {},
        }
    }
}

/// The entries of two stretches of a feed add up, if the first leaves no item
/// and no field open and the tags of the second match.
pub proof fn law_the_entries_of_two_stretches_add_up(
    tokens: Seq<TokenView>,
    more: Seq<TokenView>,
)
    requires
        !nothing_read().with_all(tokens).in_item,
        nothing_read().with_all(tokens).field is None,
        xml::open_elements(more) is Some,
    ensures
        entries_in(tokens + more) == entries_in(tokens) + entries_in(more),
{
    lemma_with_all_splits(nothing_read(), tokens, more);
    lemma_read_on(nothing_read().with_all(tokens), more);
}

/// The tokens of one field of an item.
pub open spec fn field_tokens(name: Seq<char>, text: Seq<char>) -> Seq<TokenView> {
    seq![TokenView::Start(name), TokenView::Text(text), TokenView::End(name)]
}

/// The tokens of an item with these texts in its fields.
pub open spec fn item_tokens(title: Seq<char>, link: Seq<char>, guid: Seq<char>) -> Seq<TokenView> {
    seq![TokenView::Start("item"@)] + field_tokens("title"@, title) + field_tokens("link"@, link)
        + field_tokens("guid"@, guid) + seq![TokenView::End("item"@)]
}

/// An item adds the entry its three fields write, and no other, to whatever was
/// read before it.
pub proof fn law_an_item_is_read_as_written(
    tokens: Seq<TokenView>,
    title: Seq<char>,
    link: Seq<char>,
    guid: Seq<char>,
)
    ensures
        entries_in(tokens + item_tokens(title, link, guid)) == match item_entry(title, link, guid) {
            Some(entry) => entries_in(tokens).push(entry),
            None => entries_in(tokens),
        },
{
    reveal_strlit("item");
    reveal_strlit("title");
    reveal_strlit("link");
    reveal_strlit("guid");
    assert("item"@[0] == 'i' && "title"@[0] == 't' && "link"@[0] == 'l' && "guid"@[0] == 'g');
    let start = nothing_read().with_all(tokens);
    let item = item_tokens(title, link, guid);
    lemma_with_all_splits(nothing_read(), tokens, item);
    let opened = start.with(TokenView::Start("item"@));
    lemma_field(opened, "title"@, title);
    let titled = opened.with_all(field_tokens("title"@, title));
    lemma_field(titled, "link"@, link);
    let linked = titled.with_all(field_tokens("link"@, link));
    lemma_field(linked, "guid"@, guid);
    let complete = linked.with_all(field_tokens("guid"@, guid));
    assert(opened.title =~= seq![] && opened.title + title =~= title);
    assert(titled.link + link =~= link);
    assert(linked.guid + guid =~= guid);
    let head = seq![TokenView::Start("item"@)];
    assert(start.with_all(head) == opened) by {
        assert(head.drop_last() =~= seq![]);
        reveal_with_fuel(CollectorView::with_all, 2);
    }
    lemma_with_all_splits(start, head, field_tokens("title"@, title));
    lemma_with_all_splits(
        start,
        head + field_tokens("title"@, title),
        field_tokens("link"@, link),
    );
    lemma_with_all_splits(
        start,
        head + field_tokens("title"@, title) + field_tokens("link"@, link),
        field_tokens("guid"@, guid),
    );
    assert(item.drop_last() =~= head + field_tokens("title"@, title) + field_tokens("link"@, link)
        + field_tokens("guid"@, guid));
    assert(start.with_all(item) == complete.with(TokenView::End("item"@)));
}

/// Reading two stretches is reading one and then the other.
proof fn lemma_with_all_splits(start: CollectorView, a: Seq<TokenView>, b: Seq<TokenView>)
    ensures
        start.with_all(a + b) == start.with_all(a).with_all(b),
    decreases b.len(),
{
    if b.len() == 0 {
        assert(a + b =~= a);
    } else {
        lemma_with_all_splits(start, a, b.drop_last());
        assert((a + b).drop_last() =~= a + b.drop_last());
    }
}

/// Inside an item, the tokens of a field add its text to that field.
proof fn lemma_field(state: CollectorView, name: Seq<char>, text: Seq<char>)
    requires
        state.in_item,
        field_named(name) is Some,
        name != "item"@,
    ensures
        state.with_all(field_tokens(name, text)) == (CollectorView {
            field: None,
            ..CollectorView { field: field_named(name), ..state }.with_text(text)
        }),
{
    let all = field_tokens(name, text);
    assert(all.drop_last() =~= seq![TokenView::Start(name), TokenView::Text(text)]);
    assert(all.drop_last().drop_last() =~= seq![TokenView::Start(name)]);
    assert(all.drop_last().drop_last().drop_last() =~= seq![]);
    reveal_with_fuel(CollectorView::with_all, 4);
}

/// A tag of any other name than `item`, `title`, `link` and `guid` changes
/// nothing, wherever it stands, and neither does what is no tag and no text.
pub proof fn law_other_tags_change_nothing(tokens: Seq<TokenView>, name: Seq<char>)
    requires
        name != "item"@,
        name != "title"@,
        name != "link"@,
        name != "guid"@,
    ensures
        nothing_read().with_all(tokens.push(TokenView::Start(name))) == nothing_read().with_all(
            tokens,
        ),
        nothing_read().with_all(tokens.push(TokenView::End(name))) == nothing_read().with_all(
            tokens,
        ),
        nothing_read().with_all(tokens.push(TokenView::Other)) == nothing_read().with_all(tokens),
{
    assert(tokens.push(TokenView::Start(name)).drop_last() =~= tokens);
    assert(tokens.push(TokenView::End(name)).drop_last() =~= tokens);
    assert(tokens.push(TokenView::Other).drop_last() =~= tokens);
}

/// Whether `token` is text, or no tag at all.
pub open spec fn is_content(token: TokenView) -> bool {
    token is Text || token is CData || token is Reference || token is Other
}

/// An element of any other name, with whatever text it holds, changes nothing
/// where it stands in no field: what makes up an entry comes from elements
/// called `title`, `link` and `guid` alone.
pub proof fn law_elements_of_other_names_are_ignored(
    tokens: Seq<TokenView>,
    name: Seq<char>,
    content: Seq<TokenView>,
)
    requires
        xml::open_elements(tokens) is Some,
        !inside_a_field(xml::open_elements(tokens)->0),
        name != "item"@,
        name != "title"@,
        name != "link"@,
        name != "guid"@,
        forall|i: int| 0 <= i < content.len() ==> is_content(#[trigger] content[i]),
    ensures
        nothing_read().with_all(
            tokens.push(TokenView::Start(name)) + content + seq![TokenView::End(name)],
        ) == nothing_read().with_all(tokens),
{
    let started = tokens.push(TokenView::Start(name));
    let whole = started + content + seq![TokenView::End(name)];
    law_other_tags_change_nothing(tokens, name);
    law_other_tags_change_nothing(started + content, name);
    assert(whole =~= (started + content).push(TokenView::End(name)));
    lemma_field_is_open(tokens);
    lemma_with_all_splits(nothing_read(), started, content);
    lemma_content_is_ignored(nothing_read().with_all(started), content);
}

/// Where no field is being read, text changes nothing.
proof fn lemma_content_is_ignored(state: CollectorView, content: Seq<TokenView>)
    requires
        state.field is None,
        forall|i: int| 0 <= i < content.len() ==> is_content(#[trigger] content[i]),
    ensures
        state.with_all(content) == state,
    decreases content.len(),
{
    if content.len() > 0 {
        let front = content.drop_last();
        assert forall|i: int| 0 <= i < front.len() implies is_content(#[trigger] front[i]) by {
            assert(front[i] == content[i]);
        }
        lemma_content_is_ignored(state, front);
        assert(is_content(content[content.len() - 1]));
    }
}

/// Inside an item, the elements `title`, `link` and `guid` add their whole text
/// to the field of their name, and to nothing else.
pub proof fn law_a_field_collects_its_text(state: CollectorView, text: Seq<char>)
    requires
        state.in_item,
    ensures
        state.with(TokenView::Start("title"@)).with(TokenView::Text(text)).with(
            TokenView::End("title"@),
        ) == (CollectorView { title: state.title + text, field: None, ..state }),
        state.with(TokenView::Start("link"@)).with(TokenView::Text(text)).with(
            TokenView::End("link"@),
        ) == (CollectorView { link: state.link + text, field: None, ..state }),
        state.with(TokenView::Start("guid"@)).with(TokenView::Text(text)).with(
            TokenView::End("guid"@),
        ) == (CollectorView { guid: state.guid + text, field: None, ..state }),
{
    reveal_strlit("item");
    reveal_strlit("title");
    reveal_strlit("link");
    reveal_strlit("guid");
    assert("item"@[0] == 'i' && "title"@[0] == 't' && "link"@[0] == 'l' && "guid"@[0] == 'g');
}

/// Text that comes in pieces is one text, a CDATA section is the text in it, and
/// a reference is the text it stands for.
pub proof fn law_text_may_come_in_pieces(state: CollectorView, a: Seq<char>, b: Seq<char>)
    ensures
        state.with(TokenView::Text(a)).with(TokenView::Text(b)) == state.with(
            TokenView::Text(a + b),
        ),
        state.with(TokenView::CData(a)) == state.with(TokenView::Text(a)),
        state.with(TokenView::Reference(a)) == state.with(
            TokenView::Text(xml::reference_text(a)),
        ),
{
    assert(state.title + a + b =~= state.title + (a + b));
    assert(state.link + a + b =~= state.link + (a + b));
    assert(state.guid + a + b =~= state.guid + (a + b));
}

/// An item starts with nothing collected, and where it ends, one with a title
/// and a link becomes an entry: with both as they were collected but for the
/// white space around them, and with the `guid` for an id, or the link where
/// there is none.
pub proof fn law_an_item_becomes_an_entry(state: CollectorView)
    ensures
        state.with(TokenView::Start("item"@)) == (CollectorView {
            in_item: true,
            title: seq![],
            link: seq![],
            guid: seq![],
            ..state
        }),
        ({
            let title = text::trimmed(state.title);
            let link = text::trimmed(state.link);
            let guid = text::trimmed(state.guid);
            let ended = state.with(TokenView::End("item"@));
            &&& ended == (CollectorView { entries: ended.entries, in_item: false, ..state })
            &&& title.len() > 0 && link.len() > 0 && guid.len() > 0 ==> ended.entries
                == state.entries + seq![EntryView { id: guid, title, link }]
            &&& title.len() > 0 && link.len() > 0 && guid.len() == 0 ==> ended.entries
                == state.entries + seq![EntryView { id: link, title, link }]
            &&& title.len() == 0 || link.len() == 0 ==> ended.entries == state.entries
        }),
{
    reveal_strlit("item");
    reveal_strlit("title");
    reveal_strlit("link");
    reveal_strlit("guid");
    assert("item"@[0] == 'i' && "title"@[0] == 't' && "link"@[0] == 'l' && "guid"@[0] == 'g');
    let title = text::trimmed(state.title);
    let link = text::trimmed(state.link);
    let guid = text::trimmed(state.guid);
    let ended = state.with(TokenView::End("item"@));
    if title.len() > 0 && link.len() > 0 {
        let entry = EntryView { id: if guid.len() > 0 { guid } else { link }, title, link };
        assert(ended.entries =~= state.entries + seq![entry]);
    }
}

/// Tokens are read one after the other, from nothing.
pub proof fn law_tokens_are_read_one_by_one(tokens: Seq<TokenView>, token: TokenView)
    ensures
        entries_in(seq![]) == Seq::<EntryView>::empty(),
        !nothing_read().in_item,
        nothing_read().field is None,
        nothing_read().with_all(tokens.push(token)) == nothing_read().with_all(tokens).with(token),
        entries_in(tokens) == nothing_read().with_all(tokens).entries,
{
    assert(tokens.push(token).drop_last() =~= tokens);
}

/// Text goes to the field that is being read, all of it and there alone, and
/// nowhere where none is.
pub proof fn law_text_goes_to_the_field_being_read(state: CollectorView, text: Seq<char>)
    ensures
        state.field == Some(Field::Title) ==> state.with(TokenView::Text(text)) == (
        CollectorView { title: state.title + text, ..state }),
        state.field == Some(Field::Link) ==> state.with(TokenView::Text(text)) == (
        CollectorView { link: state.link + text, ..state }),
        state.field == Some(Field::Guid) ==> state.with(TokenView::Text(text)) == (
        CollectorView { guid: state.guid + text, ..state }),
        state.field is None ==> state.with(TokenView::Text(text)) == state,
{
}

/// The start tags `title`, `link` and `guid` open their field inside an item and
/// nothing outside one; their end tags close whatever field is open.
pub proof fn law_fields_open_inside_items_and_close(state: CollectorView)
    ensures
        state.in_item ==> {
            &&& state.with(TokenView::Start("title"@)) == (CollectorView {
                field: Some(Field::Title),
                ..state
            })
            &&& state.with(TokenView::Start("link"@)) == (CollectorView {
                field: Some(Field::Link),
                ..state
            })
            &&& state.with(TokenView::Start("guid"@)) == (CollectorView {
                field: Some(Field::Guid),
                ..state
            })
        },
        !state.in_item ==> {
            &&& state.with(TokenView::Start("title"@)) == state
            &&& state.with(TokenView::Start("link"@)) == state
            &&& state.with(TokenView::Start("guid"@)) == state
        },
        state.with(TokenView::End("title"@)) == (CollectorView { field: None, ..state }),
        state.with(TokenView::End("link"@)) == (CollectorView { field: None, ..state }),
        state.with(TokenView::End("guid"@)) == (CollectorView { field: None, ..state }),
{
    reveal_strlit("item");
    reveal_strlit("title");
    reveal_strlit("link");
    reveal_strlit("guid");
    assert("item"@[0] == 'i' && "title"@[0] == 't' && "link"@[0] == 'l' && "guid"@[0] == 'g');
}

} // verus!
