//! HTML produced for embedded assets.
use vstd::prelude::*;
use crate::path::{text_of_path, ItemPath, PathModel};
use crate::text::{chars_of, push_char, same_text, string_of};
use crate::wikilink::index_of_from;
use crate::vault::{keys_of, resolve_index, EmbeddedFile, Vault};
use crate::wikilink::{link_text, LinkModel, Wikilink};

verus! {

/// The HTML element that shows an embedded asset found at `path`; a PDF
/// opens at `fragment`.
pub open spec fn embed_html(file: EmbeddedFile, path: Seq<char>, fragment: Seq<char>) -> Seq<char> {
    match file {
        EmbeddedFile::Image(_) => "<img src=\""@ + path + "\">"@,
        EmbeddedFile::Audio(_) => "<audio src=\""@ + path + "\" controls></audio>"@,
        EmbeddedFile::Video(_) => "<video src=\""@ + path + "\" controls></video>"@,
        EmbeddedFile::Pdf(_) => "<iframe src=\""@ + path + "#"@ + fragment + "\" frameborder=\"0\"></iframe>"@,
    }
}

/// The HTML element that shows `file`, found at `path` (see
/// [`embed_html`]).
pub fn embedded_file_html(file: &EmbeddedFile, path: &ItemPath, fragment: &str) -> (r: String)
    ensures
        r@ == embed_html(*file, text_of_path(path@), fragment@),
{
    let p = path.to_string();
    match file {
        EmbeddedFile::Image(_) => {
            let mut out = String::from_str("<img src=\"");
            out.append(p.as_str());
            out.append("\">");
            out
        },
        EmbeddedFile::Audio(_) => {
            let mut out = String::from_str("<audio src=\"");
            out.append(p.as_str());
            out.append("\" controls></audio>");
            out
        },
        EmbeddedFile::Video(_) => {
            let mut out = String::from_str("<video src=\"");
            out.append(p.as_str());
            out.append("\" controls></video>");
            out
        },
        EmbeddedFile::Pdf(_) => {
            let mut out = String::from_str("<iframe src=\"");
            out.append(p.as_str());
            out.append("#");
            out.append(fragment);
            out.append("\" frameborder=\"0\"></iframe>");
            out
        },
    }
}


/// The anchor that stands for a hyperlink to the note whose path reads
/// `path`, shown as `label`.
pub open spec fn anchor_html(path: Seq<char>, label: Seq<char>) -> Seq<char> {
    "<a href=\"/"@ + path + ".html\" title=\""@ + label + "\" class=\"wikilink\">"@ + label + "</a>"@
}

/// The anchor for a hyperlink to the note at `note_path`, shown as
/// `label` (see [`anchor_html`]).
pub fn note_anchor(note_path: &ItemPath, label: &str) -> (r: String)
    ensures
        r@ == anchor_html(text_of_path(note_path@), label@),
{
    let p = note_path.to_string();
    let mut out = String::from_str("<a href=\"/");
    out.append(p.as_str());
    out.append(".html\" title=\"");
    out.append(label);
    out.append("\" class=\"wikilink\">");
    out.append(label);
    out.append("</a>");
    out
}

/// A link target cut at its first `#`: the part before, and the fragment
/// after (empty if there is no `#`).
pub open spec fn target_parts(t: Seq<char>) -> (Seq<char>, Seq<char>) {
    let k = index_of_from(t, '#', 0);
    if k < t.len() {
        (t.subrange(0, k), t.subrange(k + 1, t.len() as int))
    } else {
        (t, Seq::<char>::empty())
    }
}

/// Cuts a link target at its first `#` (see [`target_parts`]).
pub fn split_fragment(target: &str) -> (r: (String, String))
    ensures
        (r.0@, r.1@) == target_parts(target@),
{
    let cs = chars_of(target);
    let mut k: usize = 0;
    while k < cs.len() && cs[k] != '#'
        invariant
            k <= cs@.len(),
            cs@ == target@,
            index_of_from(cs@, '#', 0) == index_of_from(cs@, '#', k as int),
        decreases cs@.len() - k,
    {
        k = k + 1;
    }
    let before = string_of(&cs, k);
    let mut after = String::new();
    if k < cs.len() {
        let mut i: usize = k + 1;
        while i < cs.len()
            invariant
                k < i <= cs@.len(),
                after@ == cs@.subrange(k + 1, i as int),
            decreases cs@.len() - i,
        {
            push_char(&mut after, cs[i]);
            assert(cs@.subrange(k + 1, i + 1) == cs@.subrange(k + 1, i as int).push(cs@[i as int]));
            i = i + 1;
        }
    } else {
        assert(cs@.subrange(0, cs@.len() as int) == cs@);
    }
    (before, after)
}

/// `h` with every occurrence of `pat` replaced by `rep`, scanning from the
/// left; occurrences do not overlap.
pub open spec fn replaced(h: Seq<char>, pat: Seq<char>, rep: Seq<char>) -> Seq<char>
    decreases h.len(),
{
    if pat.len() == 0 || h.len() < pat.len() {
        h
    } else if h.subrange(0, pat.len() as int) == pat {
        rep + replaced(h.subrange(pat.len() as int, h.len() as int), pat, rep)
    } else {
        seq![h[0]] + replaced(h.drop_first(), pat, rep)
    }
}

fn matches_at(h: &Vec<char>, i: usize, pat: &Vec<char>) -> (r: bool)
    requires
        i <= h@.len(),
    ensures
        r == (h@.len() - i >= pat@.len() && h@.subrange(i as int, i + pat@.len()) == pat@),
{
    if h.len() - i < pat.len() {
        return false;
    }
    let mut j: usize = 0;
    while j < pat.len()
        invariant
            j <= pat@.len(),
            i + pat@.len() <= h@.len(),
            h@.len() <= usize::MAX,
            forall|m: int| 0 <= m < j ==> h@[i + m] == pat@[m],
        decreases pat@.len() - j,
    {
        if h[i + j] != pat[j] {
            assert(h@.subrange(i as int, i + pat@.len())[j as int] != pat@[j as int]);
            return false;
        }
        j = j + 1;
    }
    assert(h@.subrange(i as int, i + pat@.len()) =~= pat@);
    true
}

/// `haystack` with every occurrence of `pattern` replaced by
/// `replacement` (see [`replaced`]); an empty pattern changes nothing.
pub fn replace_all(haystack: &str, pattern: &str, replacement: &str) -> (r: String)
    ensures
        r@ == replaced(haystack@, pattern@, replacement@),
{
    let h = chars_of(haystack);
    let pat = chars_of(pattern);
    let mut out = String::new();
    if pat.len() == 0 {
        out.append(haystack);
        return out;
    }
    let mut i: usize = 0;
    assert(h@.subrange(0, h@.len() as int) == h@);
    assert(out@ + replaced(h@, pat@, replacement@) =~= replaced(h@, pat@, replacement@));
    while i < h.len()
        invariant
            i <= h@.len(),
            h@ == haystack@,
            pat@ == pattern@,
            pat@.len() > 0,
            out@ + replaced(h@.subrange(i as int, h@.len() as int), pat@, replacement@) == replaced(haystack@, pattern@, replacement@),
        decreases h@.len() - i,
    {
        let ghost rest = h@.subrange(i as int, h@.len() as int);
        if matches_at(&h, i, &pat) {
            assert(rest.subrange(0, pat@.len() as int) == h@.subrange(i as int, i + pat@.len()));
            assert(rest.subrange(pat@.len() as int, rest.len() as int) == h@.subrange(i + pat@.len(), h@.len() as int));
            out.append(replacement);
            assert(out@ + replaced(h@.subrange(i + pat@.len(), h@.len() as int), pat@, replacement@)
                =~= replaced(haystack@, pattern@, replacement@));
            i = i + pat.len();
        } else {
            proof {
                if rest.len() >= pat@.len() {
                    assert(rest.subrange(0, pat@.len() as int) == h@.subrange(i as int, i + pat@.len()));
                }
            }
            assert(rest.drop_first() == h@.subrange(i + 1, h@.len() as int));
            assert(rest[0] == h@[i as int]);
            push_char(&mut out, h[i]);
            assert(out@ + replaced(h@.subrange(i + 1, h@.len() as int), pat@, replacement@)
                =~= replaced(haystack@, pattern@, replacement@));
            i = i + 1;
        }
    }
    assert(replaced(h@.subrange(h@.len() as int, h@.len() as int), pat@, replacement@) =~= Seq::<char>::empty());
    assert(out@ =~= replaced(haystack@, pattern@, replacement@));
    out
}

/// What a link of a note becomes in its page, if it resolves: the HTML
/// that stands for it, and for an embedded asset the asset's path. An
/// embedded link is looked up, without its `#` fragment, among the assets;
/// a hyperlink among the notes, and shows its label, or else its target.
pub open spec fn link_rendering(v: Vault, l: LinkModel) -> Option<(Seq<char>, Option<PathModel>)> {
    if l.embedded {
        let (t, fragment) = target_parts(l.target);
        let keys = keys_of(v.file_entries());
        let k = resolve_index(keys, t);
        if k >= 0 {
            Some((embed_html(v.file_entries()[k].1, text_of_path(keys[k]), fragment), Some(keys[k])))
        } else {
            None
        }
    } else {
        let k = resolve_index(v.note_paths(), l.target);
        if k >= 0 {
            let label = match l.label {
                Some(s) => s,
                None => l.target,
            };
            Some((anchor_html(text_of_path(v.note_paths()[k]), label), None))
        } else {
            None
        }
    }
}

/// What `link` becomes in its page (see [`link_rendering`]).
pub fn render_link(vault: &Vault, link: &Wikilink) -> (r: Option<(String, Option<ItemPath>)>)
    ensures
        match link_rendering(*vault, link@) {
            None => r is None,
            Some((html, asset)) => r is Some && r->Some_0.0@ == html && match asset {
                Some(p) => r->Some_0.1 is Some && r->Some_0.1->Some_0@ == p,
                None => r->Some_0.1 is None,
            },
        },
{
    if link.embedded {
        let (t, fragment) = split_fragment(link.target.as_str());
        match vault.resolve_embedded_link(t.as_str()) {
            Some((path, file)) => {
                let html = embedded_file_html(file, &path, fragment.as_str());
                Some((html, Some(path)))
            },
            None => None,
        }
    } else {
        match vault.resolve_link(link.target.as_str()) {
            Some(path) => {
                let html = match &link.label {
                    Some(l) => note_anchor(&path, l.as_str()),
                    None => note_anchor(&path, link.target.as_str()),
                };
                Some((html, None))
            },
            None => None,
        }
    }
}

/// A rendered page with its links put in, one after the other: each link
/// that resolves has every occurrence of its textual form replaced by what
/// it becomes; with the paths of the embedded assets, in order.
pub open spec fn page_with_links(v: Vault, html: Seq<char>, links: Seq<LinkModel>) -> (Seq<char>, Seq<PathModel>)
    decreases links.len(),
{
    if links.len() == 0 {
        (html, Seq::<PathModel>::empty())
    } else {
        let (page, assets) = page_with_links(v, html, links.drop_last());
        match link_rendering(v, links.last()) {
            None => (page, assets),
            Some((rep, asset)) => (
                replaced(page, link_text(links.last()), rep),
                match asset {
                    Some(p) => assets.push(p),
                    None => assets,
                },
            ),
        }
    }
}

/// Puts the links of a note into its rendered page (see
/// [`page_with_links`]); returns the page and the paths of the assets it
/// embeds.
pub fn apply_links(vault: &Vault, html: &str, links: &Vec<Wikilink>) -> (r: (String, Vec<ItemPath>))
    ensures
        (r.0@, r.1@.map_values(|p: ItemPath| p@)) == page_with_links(*vault, html@, links@.map_values(|l: Wikilink| l@)),
{
    let mut page = String::from_str(html);
    let mut assets: Vec<ItemPath> = Vec::new();
    let ghost ls = links@.map_values(|l: Wikilink| l@);
    let mut i: usize = 0;
    assert(ls.subrange(0, 0) =~= Seq::<LinkModel>::empty());
    assert(assets@.map_values(|p: ItemPath| p@) =~= Seq::<PathModel>::empty());
    while i < links.len()
        invariant
            i <= links@.len(),
            ls == links@.map_values(|l: Wikilink| l@),
            (page@, assets@.map_values(|p: ItemPath| p@)) == page_with_links(*vault, html@, ls.subrange(0, i as int)),
        decreases links@.len() - i,
    {
        assert(ls.subrange(0, i + 1).drop_last() == ls.subrange(0, i as int));
        assert(ls.subrange(0, i + 1).last() == links@[i as int]@);
        let link = &links[i];
        match render_link(vault, link) {
            Some((rep, asset)) => {
                let text = link.to_string();
                page = replace_all(page.as_str(), text.as_str(), rep.as_str());
                match asset {
                    Some(p) => {
                        let ghost before = assets@;
                        assets.push(p);
                        assert(assets@.map_values(|p: ItemPath| p@) =~= before.map_values(|p: ItemPath| p@).push(assets@.last()@));
                    },
                    None => {},
                }
            },
            None => {},
        }
        i = i + 1;
    }
    assert(ls.subrange(0, links@.len() as int) == ls);
    (page, assets)
}

/// A navigation tree over note paths: each entry a page or a folder of
/// further entries, under its name, in order of insertion.
pub struct Menu {
    items: Vec<(String, MenuItem)>,
}

/// An entry of a [`Menu`].
pub enum MenuItem {
    Page(ItemPath),
    Folder(Menu),
}

/// The entry named `name`, the first one if any.
pub open spec fn entry_named(items: Seq<(String, MenuItem)>, name: Seq<char>) -> Option<MenuItem>
    decreases items.len(),
{
    if items.len() == 0 {
        None
    } else if items[0].0@ == name {
        Some(items[0].1)
    } else {
        entry_named(items.drop_first(), name)
    }
}

/// The entry that the names `cs` lead to, folder by folder.
pub open spec fn menu_find(m: Menu, cs: Seq<Seq<char>>) -> Option<MenuItem>
    decreases cs.len(),
{
    if cs.len() == 0 {
        None
    } else {
        match entry_named(m.entries(), cs[0]) {
            None => None,
            Some(item) => if cs.len() == 1 {
                Some(item)
            } else {
                match item {
                    MenuItem::Folder(sub) => menu_find(sub, cs.drop_first()),
                    MenuItem::Page(_) => None,
                }
            },
        }
    }
}

/// Whether a page stands where the names `cs` need a folder.
pub open spec fn blocked(m: Menu, cs: Seq<Seq<char>>) -> bool
    decreases cs.len(),
{
    if cs.len() <= 1 {
        false
    } else {
        match entry_named(m.entries(), cs[0]) {
            Some(MenuItem::Page(_)) => true,
            Some(MenuItem::Folder(sub)) => blocked(sub, cs.drop_first()),
            None => false,
        }
    }
}

/// Whether `o` is a page.
pub open spec fn is_page(o: Option<MenuItem>) -> bool {
    match o {
        Some(MenuItem::Page(_)) => true,
        _ => false,
    }
}

/// Every page of menu `a` is still there, unchanged, in menu `b`.
pub open spec fn pages_kept(a: Menu, b: Menu) -> bool {
    forall|cs: Seq<Seq<char>>| #[trigger] is_page(menu_find(a, cs)) ==> menu_find(b, cs) == menu_find(a, cs)
}

proof fn lemma_entry_named_push(items: Seq<(String, MenuItem)>, e: (String, MenuItem), n: Seq<char>)
    requires
        entry_named(items, n) is Some,
    ensures
        entry_named(items.push(e), n) == entry_named(items, n),
    decreases items.len(),
{
    if items.len() > 0 && items[0].0@ != n {
        assert(items.push(e).drop_first() == items.drop_first().push(e));
        lemma_entry_named_push(items.drop_first(), e, n);
    }
}

proof fn lemma_entry_named_other(items: Seq<(String, MenuItem)>, i: int, e: (String, MenuItem), n: Seq<char>)
    requires
        0 <= i < items.len(),
        items[i].0@ == e.0@,
        n != e.0@,
    ensures
        entry_named(items.update(i, e), n) == entry_named(items, n),
    decreases items.len(),
{
    if items[0].0@ != n && i > 0 {
        assert(items.update(i, e).drop_first() == items.drop_first().update(i - 1, e));
        lemma_entry_named_other(items.drop_first(), i - 1, e, n);
    }
    if i == 0 {
        assert(items.update(i, e).drop_first() == items.drop_first());
    }
}

proof fn lemma_find_same_head(a: Menu, b: Menu, cs: Seq<Seq<char>>)
    requires
        cs.len() > 0,
        entry_named(a.entries(), cs[0]) == entry_named(b.entries(), cs[0]),
    ensures
        menu_find(a, cs) == menu_find(b, cs),
{
}

proof fn lemma_entry_named_update(items: Seq<(String, MenuItem)>, i: int, e: (String, MenuItem))
    requires
        0 <= i < items.len(),
        e.0@ == items[i].0@,
        forall|j: int| 0 <= j < i ==> items[j].0@ != e.0@,
    ensures
        entry_named(items.update(i, e), e.0@) == Some(e.1),
    decreases i,
{
    if i > 0 {
        assert(items.update(i, e).drop_first() == items.drop_first().update(i - 1, e));
        lemma_entry_named_update(items.drop_first(), i - 1, e);
    }
}

proof fn lemma_entry_named_at(items: Seq<(String, MenuItem)>, i: int, name: Seq<char>)
    requires
        0 <= i < items.len(),
        items[i].0@ == name,
        forall|j: int| 0 <= j < i ==> items[j].0@ != name,
    ensures
        entry_named(items, name) == Some(items[i].1),
    decreases i,
{
    if i > 0 {
        lemma_entry_named_at(items.drop_first(), i - 1, name);
    }
}

proof fn lemma_entry_named_absent(items: Seq<(String, MenuItem)>, name: Seq<char>)
    requires
        forall|j: int| 0 <= j < items.len() ==> items[j].0@ != name,
    ensures
        entry_named(items, name) is None,
    decreases items.len(),
{
    if items.len() > 0 {
        lemma_entry_named_absent(items.drop_first(), name);
    }
}

impl Menu {
    /// The entries, in order of insertion.
    pub closed spec fn entries(&self) -> Seq<(String, MenuItem)> {
        self.items@
    }

    /// A menu without entries.
    pub fn new() -> (r: Menu)
        ensures
            r.entries().len() == 0,
    {
        Menu { items: Vec::new() }
    }

    /// The entries, in order of insertion.
    pub fn items(&self) -> (r: &Vec<(String, MenuItem)>)
        ensures
            r@ == self.entries(),
    {
        &self.items
    }

    fn position(&self, name: &String) -> (r: Option<usize>)
        ensures
            match r {
                Some(i) => i < self.entries().len() && self.entries()[i as int].0@ == name@
                    && forall|j: int| 0 <= j < i ==> self.entries()[j].0@ != name@,
                None => forall|j: int| 0 <= j < self.entries().len() ==> self.entries()[j].0@ != name@,
            },
    {
        let mut i: usize = 0;
        while i < self.items.len()
            invariant
                i <= self.items@.len(),
                forall|j: int| 0 <= j < i ==> self.items@[j].0@ != name@,
            decreases self.items@.len() - i,
        {
            if same_text(self.items[i].0.as_str(), name.as_str()) {
                return Some(i);
            }
            i = i + 1;
        }
        None
    }

    fn add_at(&mut self, comps: &Vec<String>, k: usize, path: &ItemPath)
        requires
            k < comps@.len(),
        ensures
            ({
                let cs = comps.deep_view().subrange(k as int, comps@.len() as int);
                !blocked(*old(self), cs) ==> match menu_find(*old(self), cs) {
                    Some(item) => menu_find(*final(self), cs) == Some(item),
                    None => match menu_find(*final(self), cs) {
                        Some(MenuItem::Page(p)) => p@ == path@,
                        _ => false,
                    },
                }
            }),
            pages_kept(*old(self), *final(self)),
        decreases comps@.len() - k,
    {
        let ghost cs = comps.deep_view().subrange(k as int, comps@.len() as int);
        let ghost start = *self;
        assert(cs[0] == comps@[k as int]@);
        let name = &comps[k];
        let found = self.position(name);
        if k == comps.len() - 1 {
            assert(cs.len() == 1);
            match found {
                Some(i) => {
                    proof {
                        lemma_entry_named_at(self.items@, i as int, name@);
                    }
                },
                None => {
                    let ghost before = self.items@;
                    proof {
                        lemma_entry_named_absent(before, name@);
                    }
                    self.items.push((name.clone(), MenuItem::Page(path.duplicate())));
                    proof {
                        lemma_entry_named_at(self.items@, before.len() as int, name@);
                        assert forall|c2: Seq<Seq<char>>| #[trigger] is_page(menu_find(start, c2))
                            implies menu_find(*self, c2) == menu_find(start, c2) by {
                            lemma_entry_named_push(before, self.items@.last(), c2[0]);
                            assert(self.items@ == before.push(self.items@.last()));
                            lemma_find_same_head(start, *self, c2);
                        }
                    }
                },
            }
            return;
        }
        let i = match found {
            Some(i) => {
                proof {
                    lemma_entry_named_at(self.items@, i as int, name@);
                }
                i
            },
            None => {
                proof {
                    lemma_entry_named_absent(self.items@, name@);
                }
                self.items.push((name.clone(), MenuItem::Folder(Menu::new())));
                i_last(&self.items)
            },
        };
        let ghost mid = self.items@;
        assert(found is None ==> mid == start.items@.push(mid.last()));
        assert(found is Some ==> mid == start.items@);
        assert(mid[i as int].0@ == name@);
        assert(forall|j: int| 0 <= j < i ==> mid[j].0@ != name@);
        let (n, item) = self.items.remove(i);
        match item {
            MenuItem::Folder(mut sub) => {
                let ghost sub0 = sub;
                sub.add_at(comps, k + 1, path);
                assert(comps.deep_view().subrange(k + 1, comps@.len() as int) == cs.drop_first());
                self.items.insert(i, (n, MenuItem::Folder(sub)));
                assert(self.items@ == mid.update(i as int, self.items@[i as int]));
                proof {
                    lemma_entry_named_update(mid, i as int, self.items@[i as int]);
                    assert forall|c2: Seq<Seq<char>>| #[trigger] is_page(menu_find(start, c2))
                        implies menu_find(*self, c2) == menu_find(start, c2) by {
                        if found is None {
                            lemma_entry_named_push(start.items@, mid.last(), c2[0]);
                        }
                        if c2[0] != name@ {
                            lemma_entry_named_other(mid, i as int, self.items@[i as int], c2[0]);
                            lemma_find_same_head(start, *self, c2);
                        } else {
                            if found is None {
                                lemma_entry_named_absent(start.items@, name@);
                            }
                            lemma_entry_named_at(mid, i as int, name@);
                            assert(entry_named(start.items@, name@) == Some(MenuItem::Folder(sub0)));
                            assert(c2.len() > 1);
                            assert(is_page(menu_find(sub0, c2.drop_first())));
                        }
                    }
                    if found is None {
                        assert(menu_find(sub0, cs.drop_first()) is None) by {
                            assert(sub0.entries().len() == 0);
                        }
                        assert(!blocked(sub0, cs.drop_first())) by {
                            assert(sub0.entries().len() == 0);
                        }
                    }
                }
            },
            MenuItem::Page(p) => {
                self.items.insert(i, (n, MenuItem::Page(p)));
                assert(self.items@ =~= mid);
            },
        }
    }

    /// Files the note at `path` under its segments: folders for all but the
    /// last, a page for the last. An entry that is there stays as it is,
    /// and every page of the menu is kept; a page where a folder is needed
    /// stops the walk, and a bare file name is not filed.
    pub fn add_path(&mut self, path: &ItemPath)
        ensures
            match path@ {
                PathModel::Absolute(cs) => cs.len() > 0 && !blocked(*old(self), cs) ==> match menu_find(*old(self), cs) {
                    Some(item) => menu_find(*final(self), cs) == Some(item),
                    None => match menu_find(*final(self), cs) {
                        Some(MenuItem::Page(p)) => p@ == path@,
                        _ => false,
                    },
                },
                PathModel::FileName(_) => *final(self) == *old(self),
            },
            pages_kept(*old(self), *final(self)),
    {
        match path {
            ItemPath::Absolute(comps) => {
                if comps.len() > 0 {
                    self.add_at(comps, 0, path);
                    assert(comps.deep_view().subrange(0, comps@.len() as int) == comps.deep_view());
                }
            },
            ItemPath::FileName(_) => {},
        }
    }
}

fn i_last(items: &Vec<(String, MenuItem)>) -> (r: usize)
    requires
        items@.len() > 0,
    ensures
        r == items@.len() - 1,
{
    items.len() - 1
}

} // verus!
