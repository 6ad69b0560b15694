//! A note: its key/value block, its body, and the tags and links found in
//! the body's text.
use vstd::prelude::*;
use crate::metadata::{
    declared_tags, frontmatter_error, frontmatter_read, frontmatter_readable, frontmatter_split, parse_frontmatter,
    unique_keys, Metadata, MetadataError,
};
use crate::text::{chars_of, push_char};
use crate::wikilink::{idle_scanner, scan_all, LinkModel, Wikilink, WikilinkParser};

verus! {

/// A character that may follow `#` in an inline tag.
pub open spec fn is_tag_char(c: char) -> bool {
    ('a' <= c && c <= 'z') || ('A' <= c && c <= 'Z') || ('0' <= c && c <= '9') || c == '_' || c == '-' || c == '/'
}

/// The tag that a run after `#` gives: none for an empty run.
pub open spec fn emitted(cur: Option<Seq<char>>) -> Seq<Seq<char>> {
    match cur {
        Some(t) => if t.len() > 0 {
            seq![t]
        } else {
            Seq::<Seq<char>>::empty()
        },
        None => Seq::<Seq<char>>::empty(),
    }
}

/// The inline tags of `s` read so far: those finished, and the run after
/// the last `#` if it is still open.
pub open spec fn tag_scan(s: Seq<char>) -> (Seq<Seq<char>>, Option<Seq<char>>)
    decreases s.len(),
{
    if s.len() == 0 {
        (Seq::<Seq<char>>::empty(), None)
    } else {
        let (done, cur) = tag_scan(s.drop_last());
        let c = s.last();
        if c == '#' {
            (done + emitted(cur), Some(Seq::<char>::empty()))
        } else if is_tag_char(c) {
            match cur {
                Some(t) => (done, Some(t.push(c))),
                None => (done, None),
            }
        } else {
            (done + emitted(cur), None)
        }
    }
}

/// The inline tags of `s`, left to right: each `#` starts a run of tag
/// characters that ends at the first other character or at the end of
/// `s`; every non-empty run is a tag.
pub open spec fn inline_tags(s: Seq<char>) -> Seq<Seq<char>> {
    tag_scan(s).0 + emitted(tag_scan(s).1)
}

/// The inline tags of a sequence of text tokens, token by token.
pub open spec fn text_tags(texts: Seq<Seq<char>>) -> Seq<Seq<char>>
    decreases texts.len(),
{
    if texts.len() == 0 {
        Seq::<Seq<char>>::empty()
    } else {
        text_tags(texts.drop_last()) + inline_tags(texts.last())
    }
}

/// The text tokens among a note's events, in order.
pub open spec fn event_texts(events: Seq<Option<Seq<char>>>) -> Seq<Seq<char>>
    decreases events.len(),
{
    if events.len() == 0 {
        Seq::<Seq<char>>::empty()
    } else {
        match events.last() {
            Some(t) => event_texts(events.drop_last()).push(t),
            None => event_texts(events.drop_last()),
        }
    }
}

/// The events that pulldown-cmark makes of a Markdown text: each text
/// event as its text, every other event as `None`.
pub uninterp spec fn markdown_events(body: Seq<char>) -> Seq<Option<Seq<char>>>;

/// Relies on `pulldown_cmark::Parser::new`: the events of `body` in
/// document order, each text event as its text, every other event as
/// `None`.
#[verifier::external_body]
fn markdown_text_events(body: &str) -> (r: Vec<Option<String>>)
    ensures
        r.deep_view() == markdown_events(body@),
{
    let mut out = Vec::new();
    for event in pulldown_cmark::Parser::new(body) {
        out.push(match event {
            pulldown_cmark::Event::Text(t) => Some(t.to_string()),
            _ => None,
        });
    }
    out
}

fn is_tag_char_exec(c: char) -> (r: bool)
    ensures
        r == is_tag_char(c),
{
    ('a' <= c && c <= 'z') || ('A' <= c && c <= 'Z') || ('0' <= c && c <= '9') || c == '_' || c == '-' || c == '/'
}

/// Appends the inline tags of `text` (see [`inline_tags`]) to `tags`.
pub fn collect_tags(text: &str, tags: &mut Vec<String>)
    ensures
        final(tags).deep_view() == old(tags).deep_view() + inline_tags(text@),
{
    let cs = chars_of(text);
    let ghost start = tags.deep_view();
    let mut in_tag = false;
    let mut cur = String::new();
    let mut i: usize = 0;
    while i < cs.len()
        invariant
            i <= cs@.len(),
            cs@ == text@,
            tag_scan(cs@.subrange(0, i as int)).1 == (if in_tag { Some(cur@) } else { None }),
            tags.deep_view() == start + tag_scan(cs@.subrange(0, i as int)).0,
        decreases cs@.len() - i,
    {
        let ghost pre = cs@.subrange(0, i as int);
        assert(cs@.subrange(0, i as int + 1).drop_last() == pre);
        assert(cs@.subrange(0, i as int + 1).last() == cs@[i as int]);
        let c = cs[i];
        if c == '#' || !is_tag_char_exec(c) {
            if in_tag && cur.as_str().unicode_len() > 0 {
                tags.push(cur);
            }
            assert(tags.deep_view() =~= start + tag_scan(pre).0 + emitted(tag_scan(pre).1));
            cur = String::new();
            in_tag = c == '#';
        } else if in_tag {
            push_char(&mut cur, c);
        }
        i = i + 1;
    }
    assert(cs@.subrange(0, cs@.len() as int) == cs@);
    let ghost done = tags.deep_view();
    if in_tag && cur.as_str().unicode_len() > 0 {
        tags.push(cur);
    }
    assert(tags.deep_view() =~= done + emitted(tag_scan(text@).1));
}

/// A note read from its text.
#[derive(Debug, PartialEq)]
pub struct Note {
    pub title: String,
    pub content: String,
    pub tags: Vec<String>,
    pub links: Vec<Wikilink>,
    pub metadata: Metadata,
}

/// Why a note could not be read.
#[derive(Debug)]
pub enum NoteError {
    MetadataValueError(MetadataError),
}

/// Whether `n` is the note read from text `c` under title `t`: its
/// metadata is what the key/value block reads as (see
/// [`frontmatter_read`]), its content the body, its tags those the metadata
/// declares followed by the inline tags of the body's text tokens, and its
/// links those the scanner hands out over these tokens.
pub open spec fn parsed_as(t: Seq<char>, c: Seq<char>, n: Note) -> bool {
    let body = frontmatter_split(c).1;
    let texts = event_texts(markdown_events(body));
    &&& n.title@ == t
    &&& n.content@ == body
    &&& frontmatter_read(c, n.metadata)
    &&& unique_keys(n.metadata.entries())
    &&& n.tags.deep_view() == declared_tags(n.metadata.entries()) + text_tags(texts)
    &&& link_views(n.links@) == scan_all(idle_scanner(), texts).1
}

pub open spec fn link_views(links: Seq<Wikilink>) -> Seq<LinkModel> {
    links.map_values(|w: Wikilink| w@)
}

impl Note {
    /// Assembles a note from its title, its body, its metadata and the
    /// events of its body: the tags are those the metadata declares, then
    /// the inline tags of each text token; the links are those the scanner
    /// hands out over the text tokens, in order.
    pub fn from_events(title: &str, body: &str, metadata: Metadata, events: &Vec<Option<String>>) -> (r: Note)
        ensures
            r.title@ == title@,
            r.content@ == body@,
            r.metadata == metadata,
            r.tags.deep_view() == declared_tags(metadata.entries()) + text_tags(event_texts(events.deep_view())),
            link_views(r.links@) == scan_all(idle_scanner(), event_texts(events.deep_view())).1,
    {
        let mut links: Vec<Wikilink> = Vec::new();
        let mut tags = metadata.tags();
        let ghost declared = tags.deep_view();
        let mut parser = WikilinkParser::new();
        let mut i: usize = 0;
        while i < events.len()
            invariant
                i <= events@.len(),
                tags.deep_view() == declared + text_tags(event_texts(events.deep_view().subrange(0, i as int))),
                (parser@, link_views(links@)) == scan_all(idle_scanner(), event_texts(events.deep_view().subrange(0, i as int))),
            decreases events@.len() - i,
        {
            let ghost pre = events.deep_view().subrange(0, i as int);
            let ghost next = events.deep_view().subrange(0, i as int + 1);
            assert(next.drop_last() == pre);
            assert(next.last() == events.deep_view()[i as int]);
            match &events[i] {
                Some(text) => {
                    let ghost texts = event_texts(pre);
                    assert(event_texts(next) == texts.push(text@));
                    assert(texts.push(text@).drop_last() == texts);
                    let ghost before = tags.deep_view();
                    let ghost links_before = link_views(links@);
                    let found = parser.feed(text.as_str());
                    match found {
                        Some(link) => {
                            links.push(link);
                            assert(link_views(links@) =~= links_before.push(links@.last()@));
                        },
                        None => {},
                    }
                    collect_tags(text.as_str(), &mut tags);
                    assert(tags.deep_view() =~= declared + text_tags(texts.push(text@)));
                },
                None => {},
            }
            i = i + 1;
        }
        assert(events.deep_view().subrange(0, events@.len() as int) == events.deep_view());
        Note { title: title.to_owned(), content: body.to_owned(), tags, links, metadata }
    }

    /// Reads a note from its text: the key/value block, if there is one,
    /// becomes its metadata, the rest its body (see
    /// [`crate::metadata::frontmatter_split`]), and the body's Markdown text
    /// events give its tags and links (see [`parsed_as`]). Fails exactly
    /// when the block cannot be read, with the error that reading it gives.
    pub fn parse(title: &str, content: &str) -> (r: Result<Note, NoteError>)
        ensures
            r is Ok <==> frontmatter_readable(content@),
            match r {
                Ok(n) => parsed_as(title@, content@, n),
                Err(NoteError::MetadataValueError(e)) => frontmatter_error(content@, e),
            },
    {
        let (metadata, body) = match parse_frontmatter(content) {
            Ok(parts) => parts,
            Err(e) => return Err(NoteError::MetadataValueError(e)),
        };
        let events = markdown_text_events(body);
        Ok(Note::from_events(title, body, metadata, &events))
    }
}

} // verus!
