//! Cross-references written `[[target]]`, `[[target|label]]` or
//! `![[target]]`, and the token-driven scanner that recognises them.
use vstd::prelude::*;
use crate::text::{chars_of, push_char, string_of};

verus! {

/// A cross-reference between notes, or an embedded asset.
#[derive(Clone, PartialEq, Debug, Default)]
pub struct Wikilink {
    pub target: String,
    pub label: Option<String>,
    pub embedded: bool,
}

/// The mathematical value of a [`Wikilink`].
pub struct LinkModel {
    pub target: Seq<char>,
    pub label: Option<Seq<char>>,
    pub embedded: bool,
}

pub open spec fn label_view(l: Option<String>) -> Option<Seq<char>> {
    match l {
        Some(s) => Some(s@),
        None => None,
    }
}

impl View for Wikilink {
    type V = LinkModel;

    open spec fn view(&self) -> LinkModel {
        LinkModel { target: self.target@, label: label_view(self.label), embedded: self.embedded }
    }
}

pub open spec fn link_view(l: Option<Wikilink>) -> Option<LinkModel> {
    match l {
        Some(w) => Some(w@),
        None => None,
    }
}

/// Index of the first `c` in `s` at or after `i`, or the length of `s`.
pub open spec fn index_of_from(s: Seq<char>, c: char, i: int) -> int
    decreases s.len() - i,
{
    if i < 0 || i >= s.len() {
        s.len() as int
    } else if s[i] == c {
        i
    } else {
        index_of_from(s, c, i + 1)
    }
}

/// The hyperlink written by the text `t` between the brackets: up to the
/// first `|` is the target, the rest (if there is a `|`) the label.
pub open spec fn link_of_text(t: Seq<char>) -> LinkModel {
    let k = index_of_from(t, '|', 0);
    if k < t.len() {
        LinkModel { target: t.subrange(0, k), label: Some(t.subrange(k + 1, t.len() as int)), embedded: false }
    } else {
        LinkModel { target: t, label: None, embedded: false }
    }
}

/// The textual form of a link.
pub open spec fn link_text(w: LinkModel) -> Seq<char> {
    if w.embedded {
        seq!['!', '[', '['] + w.target + seq![']', ']']
    } else {
        match w.label {
            Some(l) => seq!['[', '['] + w.target + seq!['|'] + l + seq![']', ']'],
            None => seq!['[', '['] + w.target + seq![']', ']'],
        }
    }
}

/// How the textual form of a link is cut into text tokens: the brackets
/// one by one, and the text between them as one token.
pub open spec fn link_tokens(w: LinkModel) -> Seq<Seq<char>> {
    if w.embedded {
        seq![seq!['!', '['], seq!['['], w.target, seq![']'], seq![']']]
    } else {
        match w.label {
            Some(l) => seq![seq!['['], seq!['['], w.target + seq!['|'] + l, seq![']'], seq![']']],
            None => seq![seq!['['], seq!['['], w.target, seq![']'], seq![']']],
        }
    }
}

impl Wikilink {
    /// A hyperlink to `target`, shown as `label` if there is one.
    pub fn new(target: &str, label: Option<&str>) -> (r: Wikilink)
        ensures
            r@ == (LinkModel {
                target: target@,
                label: match label {
                    Some(l) => Some(l@),
                    None => None,
                },
                embedded: false,
            }),
    {
        let label = match label {
            Some(l) => Some(l.to_owned()),
            None => None,
        };
        Wikilink { target: target.to_owned(), label, embedded: false }
    }

    /// An embedded asset at `target`.
    pub fn embedded(target: &str) -> (r: Wikilink)
        ensures
            r@ == (LinkModel { target: target@, label: None, embedded: true }),
    {
        Wikilink { target: target.to_owned(), label: None, embedded: true }
    }

    /// A second value equal to this one.
    pub fn duplicate(&self) -> (r: Wikilink)
        ensures
            r@ == self@,
    {
        let label = match &self.label {
            Some(l) => Some(l.clone()),
            None => None,
        };
        Wikilink { target: self.target.clone(), label, embedded: self.embedded }
    }

    /// The textual form: `![[target]]`, `[[target|label]]` or `[[target]]`.
    pub fn to_string(&self) -> (r: String)
        ensures
            r@ == link_text(self@),
    {
        let mut out = String::new();
        if self.embedded {
            push_char(&mut out, '!');
        }
        push_char(&mut out, '[');
        push_char(&mut out, '[');
        out.append(self.target.as_str());
        if !self.embedded {
            match &self.label {
                Some(l) => {
                    push_char(&mut out, '|');
                    out.append(l.as_str());
                },
                None => {},
            }
        }
        push_char(&mut out, ']');
        push_char(&mut out, ']');
        assert(out@ =~= link_text(self@));
        out
    }
}

/// Splits the text between the brackets at its first `|` into target and
/// label.
pub fn parse_wikilink_text(text: &str) -> (r: Wikilink)
    ensures
        r@ == link_of_text(text@),
{
    let cs = chars_of(text);
    let mut k: usize = 0;
    while k < cs.len() && cs[k] != '|'
        invariant
            k <= cs@.len(),
            index_of_from(cs@, '|', 0) == index_of_from(cs@, '|', k as int),
        decreases cs@.len() - k,
    {
        k = k + 1;
    }
    let target = string_of(&cs, k);
    if k < cs.len() {
        let mut label = String::new();
        let mut i: usize = k + 1;
        while i < cs.len()
            invariant
                k < i <= cs@.len(),
                label@ == cs@.subrange(k + 1, i as int),
            decreases cs@.len() - i,
        {
            push_char(&mut label, cs[i]);
            assert(cs@.subrange(k + 1, i + 1) == cs@.subrange(k + 1, i as int).push(cs@[i as int]));
            i = i + 1;
        }
        Wikilink { target, label: Some(label), embedded: false }
    } else {
        assert(cs@.subrange(0, cs@.len() as int) == cs@);
        Wikilink { target, label: None, embedded: false }
    }
}

/// Where the scanner stands in the `[[ … ]]` pattern.
#[derive(Clone, Copy, PartialEq, Eq, Debug, Structural)]
pub enum WikilinkParserState {
    Start,
    FirstOpen,
    SecondOpen,
    Text,
    FirstClose,
}

/// A finite-state machine fed one text token at a time; it hands out a
/// link when the token after `]` is a second `]`.
pub struct WikilinkParser {
    state: WikilinkParserState,
    current_value: Option<Wikilink>,
    embedded: bool,
}

/// The mathematical value of a [`WikilinkParser`].
pub struct ScannerModel {
    pub state: WikilinkParserState,
    pub pending: Option<LinkModel>,
    pub embedded: bool,
}

impl View for WikilinkParser {
    type V = ScannerModel;

    closed spec fn view(&self) -> ScannerModel {
        ScannerModel { state: self.state, pending: link_view(self.current_value), embedded: self.embedded }
    }
}

/// A scanner past the text between the brackets always holds the link
/// it read there.
pub open spec fn scanner_ok(m: ScannerModel) -> bool {
    (m.state == WikilinkParserState::Text || m.state == WikilinkParserState::FirstClose) ==> m.pending is Some
}

pub open spec fn idle_scanner() -> ScannerModel {
    ScannerModel { state: WikilinkParserState::Start, pending: None, embedded: false }
}

/// One step of the scanner on token `tok`: the next state and the link
/// handed out, if any. Any token that breaks the pattern sends the scanner
/// back to `Start` and drops the pending link silently.
pub open spec fn scan_step(m: ScannerModel, tok: Seq<char>) -> (ScannerModel, Option<LinkModel>) {
    let reset = ScannerModel { state: WikilinkParserState::Start, ..m };
    match m.state {
        WikilinkParserState::Start => if tok == seq!['!', '['] {
            (ScannerModel { state: WikilinkParserState::FirstOpen, embedded: true, ..m }, None)
        } else if tok == seq!['['] {
            (ScannerModel { state: WikilinkParserState::FirstOpen, embedded: false, ..m }, None)
        } else {
            (reset, None)
        },
        WikilinkParserState::FirstOpen => if tok == seq!['['] {
            (ScannerModel { state: WikilinkParserState::SecondOpen, ..m }, None)
        } else {
            (reset, None)
        },
        WikilinkParserState::SecondOpen => {
            let link = if m.embedded {
                LinkModel { target: tok, label: None, embedded: true }
            } else {
                link_of_text(tok)
            };
            (ScannerModel { state: WikilinkParserState::Text, pending: Some(link), ..m }, None)
        },
        WikilinkParserState::Text => if tok == seq![']'] {
            (ScannerModel { state: WikilinkParserState::FirstClose, ..m }, None)
        } else {
            (reset, None)
        },
        WikilinkParserState::FirstClose => if tok == seq![']'] {
            (reset, m.pending)
        } else {
            (reset, None)
        },
    }
}

/// The scanner run over `toks` from `m`: the final state and the links
/// handed out, in order.
pub open spec fn scan_all(m: ScannerModel, toks: Seq<Seq<char>>) -> (ScannerModel, Seq<LinkModel>)
    decreases toks.len(),
{
    if toks.len() == 0 {
        (m, Seq::<LinkModel>::empty())
    } else {
        let (m1, out) = scan_all(m, toks.drop_last());
        let (m2, e) = scan_step(m1, toks.last());
        (m2, match e {
            Some(w) => out.push(w),
            None => out,
        })
    }
}

fn is_one(cs: &Vec<char>, c: char) -> (r: bool)
    ensures
        r == (cs@ == seq![c]),
{
    if cs.len() == 1 && cs[0] == c {
        assert(cs@ =~= seq![c]);
        true
    } else {
        false
    }
}

fn is_embed_open(cs: &Vec<char>) -> (r: bool)
    ensures
        r == (cs@ == seq!['!', '[']),
{
    if cs.len() == 2 && cs[0] == '!' && cs[1] == '[' {
        assert(cs@ =~= seq!['!', '[']);
        true
    } else {
        false
    }
}

impl WikilinkParser {
    #[verifier::type_invariant]
    spec fn holds_pending(self) -> bool {
        (self.state == WikilinkParserState::Text || self.state == WikilinkParserState::FirstClose)
            ==> self.current_value is Some
    }

    /// A scanner at `Start` with nothing pending.
    pub fn new() -> (r: WikilinkParser)
        ensures
            r@ == idle_scanner(),
    {
        WikilinkParser { state: WikilinkParserState::Start, current_value: None, embedded: false }
    }

    /// Where the scanner stands.
    pub fn state(&self) -> (r: WikilinkParserState)
        ensures
            r == self@.state,
            scanner_ok(self@),
    {
        proof {
            use_type_invariant(self);
        }
        self.state
    }

    fn transit_state(&mut self, state: WikilinkParserState)
        requires
            (state == WikilinkParserState::Text || state == WikilinkParserState::FirstClose)
                ==> old(self).current_value is Some,
        ensures
            final(self)@ == (ScannerModel { state, ..old(self)@ }),
    {
        self.state = state;
    }

    /// Feeds one text token; returns the link that this token completes.
    pub fn feed(&mut self, text: &str) -> (r: Option<Wikilink>)
        ensures
            scanner_ok(old(self)@),
            scanner_ok(final(self)@),
            (final(self)@, link_view(r)) == scan_step(old(self)@, text@),
    {
        proof {
            use_type_invariant(&*self);
        }
        let cs = chars_of(text);
        match self.state {
            WikilinkParserState::Start => {
                if is_embed_open(&cs) {
                    self.transit_state(WikilinkParserState::FirstOpen);
                    self.embedded = true;
                } else if is_one(&cs, '[') {
                    self.transit_state(WikilinkParserState::FirstOpen);
                    self.embedded = false;
                } else {
                    self.transit_state(WikilinkParserState::Start);
                }
                None
            },
            WikilinkParserState::FirstOpen => {
                if is_one(&cs, '[') {
                    self.transit_state(WikilinkParserState::SecondOpen);
                } else {
                    self.transit_state(WikilinkParserState::Start);
                }
                None
            },
            WikilinkParserState::SecondOpen => {
                let wikilink = if !self.embedded {
                    parse_wikilink_text(text)
                } else {
                    Wikilink::embedded(text)
                };
                self.current_value = Some(wikilink);
                self.transit_state(WikilinkParserState::Text);
                None
            },
            WikilinkParserState::Text => {
                if is_one(&cs, ']') {
                    self.transit_state(WikilinkParserState::FirstClose);
                } else {
                    self.transit_state(WikilinkParserState::Start);
                }
                None
            },
            WikilinkParserState::FirstClose => {
                self.transit_state(WikilinkParserState::Start);
                if is_one(&cs, ']') {
                    match &self.current_value {
                        Some(w) => Some(w.duplicate()),
                        None => None,
                    }
                } else {
                    None
                }
            },
        }
    }
}

impl Default for WikilinkParser {
    fn default() -> (r: WikilinkParser)
        ensures
            r@ == idle_scanner(),
    {
        WikilinkParser::new()
    }
}


/// Whether `tok` keeps the `[[ … ]]` pattern going in state `st`.
pub open spec fn expected(st: WikilinkParserState, tok: Seq<char>) -> bool {
    match st {
        WikilinkParserState::Start => tok == seq!['!', '['] || tok == seq!['['],
        WikilinkParserState::FirstOpen => tok == seq!['['],
        WikilinkParserState::SecondOpen => true,
        WikilinkParserState::Text => tok == seq![']'],
        WikilinkParserState::FirstClose => tok == seq![']'],
    }
}

/// A scanner hands out a link exactly when a `]` follows the first `]`;
/// the link is the one read between the brackets, and the scanner is then
/// back at `Start`.
pub proof fn lemma_emits_exactly(m: ScannerModel, tok: Seq<char>)
    requires
        scanner_ok(m),
    ensures
        scan_step(m, tok).1 is Some <==> (m.state == WikilinkParserState::FirstClose && tok == seq![']']),
        scan_step(m, tok).1 is Some ==> scan_step(m, tok).1 == m.pending
            && scan_step(m, tok).0.state == WikilinkParserState::Start,
        scanner_ok(scan_step(m, tok).0),
{
}

/// A token that breaks the two-open, two-close pattern sends the scanner
/// back to `Start` and hands out nothing.
pub proof fn lemma_broken_pattern_resets(m: ScannerModel, tok: Seq<char>)
    requires
        !expected(m.state, tok),
    ensures
        scan_step(m, tok).0.state == WikilinkParserState::Start,
        scan_step(m, tok).1 is None,
{
}

/// A link written out in its textual form and cut back into tokens is
/// recognised again, as the same link, by a scanner that starts from
/// `Start`. This holds of every link that the scanner can produce: a
/// hyperlink whose target has no `|`, or an embedded link without label.
pub proof fn lemma_round_trip(m: ScannerModel, w: LinkModel)
    requires
        m.state == WikilinkParserState::Start,
        w.embedded ==> w.label is None,
        !w.embedded ==> !w.target.contains('|'),
    ensures
        link_tokens(w).flatten() == link_text(w),
        scan_all(m, link_tokens(w)).1 == seq![w],
        scan_all(m, link_tokens(w)).0.state == WikilinkParserState::Start,
{
    let toks = link_tokens(w);
    reveal_with_fuel(Seq::flatten, 6);
    assert(toks.flatten() =~= link_text(w)) by {
        assert(toks.drop_first().drop_first().drop_first().drop_first().drop_first() =~= Seq::<Seq<char>>::empty());
    }
    assert(toks.drop_last().drop_last().drop_last().drop_last().drop_last() =~= Seq::<Seq<char>>::empty());
    reveal_with_fuel(scan_all, 6);
    if !w.embedded {
        match w.label {
            Some(l) => {
                let t = w.target + seq!['|'] + l;
                lemma_first_bar(w.target, l);
                assert(t.subrange(0, w.target.len() as int) =~= w.target);
                assert(t.subrange(w.target.len() as int + 1, t.len() as int) =~= l);
            },
            None => {
                lemma_no_bar(w.target, 0);
                assert(w.target.subrange(0, w.target.len() as int) =~= w.target);
            },
        }
    }
    assert(scan_all(m, toks).1 =~= seq![w]);
}

proof fn lemma_no_bar(t: Seq<char>, i: int)
    requires
        !t.contains('|'),
        0 <= i <= t.len(),
    ensures
        index_of_from(t, '|', i) == t.len(),
    decreases t.len() - i,
{
    if i < t.len() {
        assert(t[i] != '|') by {
            if t[i] == '|' {
                assert(t.contains('|'));
            }
        }
        lemma_no_bar(t, i + 1);
    }
}

proof fn lemma_first_bar(target: Seq<char>, l: Seq<char>)
    requires
        !target.contains('|'),
    ensures
        index_of_from(target + seq!['|'] + l, '|', 0) == target.len(),
{
    let t = target + seq!['|'] + l;
    assert forall|i: int| 0 <= i <= target.len() implies index_of_from(t, '|', i) == target.len() by {
        lemma_prefix_scan(target, l, i);
    }
}

proof fn lemma_prefix_scan(target: Seq<char>, l: Seq<char>, i: int)
    requires
        !target.contains('|'),
        0 <= i <= target.len(),
    ensures
        index_of_from(target + seq!['|'] + l, '|', i) == target.len(),
    decreases target.len() - i,
{
    let t = target + seq!['|'] + l;
    if i < target.len() {
        assert(t[i] == target[i]);
        assert(target[i] != '|') by {
            if target[i] == '|' {
                assert(target.contains('|'));
            }
        }
        lemma_prefix_scan(target, l, i + 1);
    } else {
        assert(t[i] == '|');
    }
}

} // verus!
