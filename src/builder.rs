//! Building a vault from the files of a corpus.
use vstd::prelude::*;
use crate::metadata::frontmatter_readable;
use crate::note::{parsed_as, Note};
use crate::path::{path_components, stem_components, ItemPath, PathModel};
use crate::text::{chars_of, same_text, split_on, split_string, lemma_split_on_nonempty};
use crate::vault::{keys_of, link_edges, note_links, unique_paths, EmbeddedFile, Vault};

verus! {

/// What a file is, by the suffix of its name.
#[derive(Clone, Copy, PartialEq, Eq, Debug, Structural)]
pub enum FileKind {
    Note,
    Image,
    Audio,
    Video,
    Pdf,
    Ignored,
}

/// A file of the corpus: its path relative to the corpus root (segments
/// separated by `/`), where it lies on disk, and, for a note that could
/// be read, its text.
pub struct VaultFile {
    pub relative_path: String,
    pub location: String,
    pub content: Option<String>,
}

/// Reads a corpus into a [`Vault`], keeping only the notes that carry one
/// of the filter's tags, if a filter is set.
pub struct VaultBuilder {
    pub directory: String,
    tags: Option<Vec<String>>,
}

pub open spec fn ends_with(s: Seq<char>, suffix: Seq<char>) -> bool {
    s.len() >= suffix.len() && s.subrange(s.len() - suffix.len(), s.len() as int) == suffix
}

pub open spec fn ends_with_any(s: Seq<char>, suffixes: Seq<Seq<char>>) -> bool {
    exists|i: int| 0 <= i < suffixes.len() && ends_with(s, #[trigger] suffixes[i])
}

pub open spec fn note_suffixes() -> Seq<Seq<char>> {
    seq![seq!['.', 'm', 'd']]
}

pub open spec fn image_suffixes() -> Seq<Seq<char>> {
    seq![
        seq!['.', 'p', 'n', 'g'],
        seq!['.', 'w', 'e', 'b', 'p'],
        seq!['.', 'j', 'p', 'g'],
        seq!['.', 'j', 'p', 'e', 'g'],
        seq!['.', 'g', 'i', 'f'],
        seq!['.', 'b', 'm', 'p'],
        seq!['.', 's', 'v', 'g'],
    ]
}

pub open spec fn audio_suffixes() -> Seq<Seq<char>> {
    seq![
        seq!['.', 'm', 'p', '3'],
        seq!['.', 'w', 'e', 'b', 'm'],
        seq!['.', 'w', 'a', 'v'],
        seq!['.', 'm', '4', 'a'],
        seq!['.', 'o', 'g', 'g'],
        seq!['.', '3', 'g', 'p'],
        seq!['.', 'f', 'l', 'a', 'c'],
    ]
}

pub open spec fn video_suffixes() -> Seq<Seq<char>> {
    seq![
        seq!['.', 'm', 'p', '4'],
        seq!['.', 'w', 'e', 'b', 'm'],
        seq!['.', 'o', 'g', 'v'],
        seq!['.', 'm', 'o', 'v'],
        seq!['.', 'm', 'k', 'v'],
    ]
}

pub open spec fn pdf_suffixes() -> Seq<Seq<char>> {
    seq![seq!['.', 'p', 'd', 'f']]
}

/// The kind of a file by the suffix of its name, the lists tried in the
/// order note, image, audio, video, pdf; suffixes are case-sensitive.
pub open spec fn kind_of(name: Seq<char>) -> FileKind {
    if ends_with_any(name, note_suffixes()) {
        FileKind::Note
    } else if ends_with_any(name, image_suffixes()) {
        FileKind::Image
    } else if ends_with_any(name, audio_suffixes()) {
        FileKind::Audio
    } else if ends_with_any(name, video_suffixes()) {
        FileKind::Video
    } else if ends_with_any(name, pdf_suffixes()) {
        FileKind::Pdf
    } else {
        FileKind::Ignored
    }
}

/// The file name of a relative path: what follows its last `/`.
pub open spec fn file_name_of(path: Seq<char>) -> Seq<char> {
    split_on(path, '/').last()
}

fn ends_with_exec(s: &Vec<char>, suffix: &Vec<char>) -> (r: bool)
    ensures
        r == ends_with(s@, suffix@),
{
    if s.len() < suffix.len() {
        return false;
    }
    let off = s.len() - suffix.len();
    let mut i: usize = 0;
    while i < suffix.len()
        invariant
            i <= suffix@.len(),
            off + suffix@.len() == s@.len(),
            s@.len() <= usize::MAX,
            forall|k: int| 0 <= k < i ==> s@[off + k] == suffix@[k],
        decreases suffix@.len() - i,
    {
        if s[off + i] != suffix[i] {
            assert(s@.subrange(off as int, s@.len() as int)[i as int] != suffix@[i as int]);
            return false;
        }
        i = i + 1;
    }
    assert(s@.subrange(off as int, s@.len() as int) =~= suffix@);
    true
}

pub open spec fn views_of(v: Seq<Vec<char>>) -> Seq<Seq<char>> {
    v.map_values(|x: Vec<char>| x@)
}

fn ends_with_any_exec(s: &Vec<char>, suffixes: &Vec<Vec<char>>) -> (r: bool)
    ensures
        r == ends_with_any(s@, views_of(suffixes@)),
{
    let mut i: usize = 0;
    while i < suffixes.len()
        invariant
            i <= suffixes@.len(),
            forall|k: int| 0 <= k < i ==> !ends_with(s@, #[trigger] views_of(suffixes@)[k]),
        decreases suffixes@.len() - i,
    {
        if ends_with_exec(s, &suffixes[i]) {
            assert(ends_with(s@, views_of(suffixes@)[i as int]));
            return true;
        }
        i = i + 1;
    }
    false
}

/// The kind of a file by the suffix of its name (see [`kind_of`]).
pub fn classify(file_name: &str) -> (r: FileKind)
    ensures
        r == kind_of(file_name@),
{
    let name = chars_of(file_name);
    let notes: Vec<Vec<char>> = vec![vec!['.', 'm', 'd']];
    assert(views_of(notes@) =~= note_suffixes());
    if ends_with_any_exec(&name, &notes) {
        return FileKind::Note;
    }
    let images: Vec<Vec<char>> = vec![
        vec!['.', 'p', 'n', 'g'],
        vec!['.', 'w', 'e', 'b', 'p'],
        vec!['.', 'j', 'p', 'g'],
        vec!['.', 'j', 'p', 'e', 'g'],
        vec!['.', 'g', 'i', 'f'],
        vec!['.', 'b', 'm', 'p'],
        vec!['.', 's', 'v', 'g'],
    ];
    assert(views_of(images@) =~= image_suffixes());
    if ends_with_any_exec(&name, &images) {
        return FileKind::Image;
    }
    let audio: Vec<Vec<char>> = vec![
        vec!['.', 'm', 'p', '3'],
        vec!['.', 'w', 'e', 'b', 'm'],
        vec!['.', 'w', 'a', 'v'],
        vec!['.', 'm', '4', 'a'],
        vec!['.', 'o', 'g', 'g'],
        vec!['.', '3', 'g', 'p'],
        vec!['.', 'f', 'l', 'a', 'c'],
    ];
    assert(views_of(audio@) =~= audio_suffixes());
    if ends_with_any_exec(&name, &audio) {
        return FileKind::Audio;
    }
    let video: Vec<Vec<char>> = vec![
        vec!['.', 'm', 'p', '4'],
        vec!['.', 'w', 'e', 'b', 'm'],
        vec!['.', 'o', 'g', 'v'],
        vec!['.', 'm', 'o', 'v'],
        vec!['.', 'm', 'k', 'v'],
    ];
    assert(views_of(video@) =~= video_suffixes());
    if ends_with_any_exec(&name, &video) {
        return FileKind::Video;
    }
    let pdf: Vec<Vec<char>> = vec![vec!['.', 'p', 'd', 'f']];
    assert(views_of(pdf@) =~= pdf_suffixes());
    if ends_with_any_exec(&name, &pdf) {
        return FileKind::Pdf;
    }
    FileKind::Ignored
}


/// Whether a note with `tags` passes the filter: always without a filter,
/// else when one of its tags is one of the filter's.
pub open spec fn passes_filter(filter: Option<Seq<Seq<char>>>, tags: Seq<Seq<char>>) -> bool {
    match filter {
        None => true,
        Some(wanted) => exists|i: int| 0 <= i < tags.len() && wanted.contains(#[trigger] tags[i]),
    }
}

/// The asset that a file is, if it is one.
pub open spec fn asset_of(f: VaultFile) -> Option<EmbeddedFile> {
    match kind_of(file_name_of(f.relative_path@)) {
        FileKind::Image => Some(EmbeddedFile::Image(f.location)),
        FileKind::Audio => Some(EmbeddedFile::Audio(f.location)),
        FileKind::Video => Some(EmbeddedFile::Video(f.location)),
        FileKind::Pdf => Some(EmbeddedFile::Pdf(f.location)),
        _ => None,
    }
}

/// The paths of an index.
pub open spec fn model_keys<V>(entries: Seq<(PathModel, V)>) -> Seq<PathModel> {
    entries.map_values(|e: (PathModel, V)| e.0)
}

/// `entries` with `k` set to `v`: in place if `k` is there, else at the end.
pub open spec fn put_model<V>(entries: Seq<(PathModel, V)>, k: PathModel, v: V) -> Seq<(PathModel, V)> {
    let keys = model_keys(entries);
    if keys.contains(k) {
        entries.update(keys.index_of(k), (k, v))
    } else {
        entries.push((k, v))
    }
}

/// The asset index of a corpus: each asset under the components of its
/// relative path, extension kept; a path met twice keeps the later file.
pub open spec fn asset_index(files: Seq<VaultFile>) -> Seq<(PathModel, EmbeddedFile)>
    decreases files.len(),
{
    if files.len() == 0 {
        Seq::<(PathModel, EmbeddedFile)>::empty()
    } else {
        let prev = asset_index(files.drop_last());
        match asset_of(files.last()) {
            Some(e) => put_model(prev, PathModel::Absolute(path_components(files.last().relative_path@)), e),
            None => prev,
        }
    }
}

/// The title a note file gets: its file name without the extension.
pub open spec fn note_title(f: VaultFile) -> Seq<char> {
    let cs = stem_components(f.relative_path@);
    if cs.len() > 0 {
        cs.last()
    } else {
        Seq::<char>::empty()
    }
}

/// Whether file `f` is a note that is kept: it could be read, its
/// key/value block (if any) can be read, and its note passes the filter.
pub open spec fn kept_file(f: VaultFile, filter: Option<Seq<Seq<char>>>) -> bool {
    &&& kind_of(file_name_of(f.relative_path@)) == FileKind::Note
    &&& f.content is Some
    &&& frontmatter_readable(f.content->Some_0@)
    &&& forall|n: Note| parsed_as(note_title(f), f.content->Some_0@, n) ==> passes_filter(filter, n.tags.deep_view())
}

/// Whether `n`, filed under `p`, is the note read from a note file of
/// `files` whose path gives `p`.
pub open spec fn filed_from(files: Seq<VaultFile>, p: PathModel, n: Note) -> bool {
    exists|k: int| 0 <= k < files.len() && kind_of(file_name_of(files[k].relative_path@)) == FileKind::Note
        && files[k].content is Some && p == PathModel::Absolute(stem_components(#[trigger] files[k].relative_path@))
        && parsed_as(note_title(files[k]), files[k].content->Some_0@, n)
}

pub open spec fn entry_views<V>(entries: Seq<(ItemPath, V)>) -> Seq<(PathModel, V)> {
    entries.map_values(|e: (ItemPath, V)| (e.0@, e.1))
}

/// Sets `key` to `value` in an index: in place if the key is there, else at
/// the end.
fn put<V>(entries: &mut Vec<(ItemPath, V)>, key: ItemPath, value: V)
    requires
        unique_paths(keys_of(old(entries)@)),
    ensures
        unique_paths(keys_of(final(entries)@)),
        entry_views(final(entries)@) == put_model(entry_views(old(entries)@), key@, value),
        keys_of(old(entries)@).contains(key@) ==> final(entries)@ == old(entries)@.update(keys_of(old(entries)@).index_of(key@), (key, value)),
        !keys_of(old(entries)@).contains(key@) ==> final(entries)@ == old(entries)@.push((key, value)),
{
    let ghost keys = keys_of(entries@);
    let ghost kv = key@;
    let ghost vv = value;
    assert(model_keys(entry_views(entries@)) =~= keys);
    let mut i: usize = 0;
    while i < entries.len()
        invariant
            i <= entries@.len(),
            entries@ == old(entries)@,
            kv == key@,
            vv == value,
            keys == keys_of(entries@),
            model_keys(entry_views(entries@)) == keys,
            unique_paths(keys),
            forall|j: int| 0 <= j < i ==> keys[j] != key@,
        decreases entries@.len() - i,
    {
        if entries[i].0.eq(&key) {
            assert(keys[i as int] == key@);
            assert(keys.contains(key@));
            let ghost k = keys.index_of(key@);
            assert(k == i) by {
                if k != i {
                    assert(keys[k] == key@);
                }
            }
            entries.set(i, (key, value));
            assert(keys_of(entries@) =~= keys);
            assert(put_model(entry_views(old(entries)@), kv, vv) == entry_views(old(entries)@).update(i as int, (kv, vv)));
            assert(entry_views(entries@) =~= entry_views(old(entries)@).update(i as int, (kv, vv)));
            return;
        }
        i = i + 1;
    }
    let ghost before = entries@;
    entries.push((key, value));
    assert(!keys.contains(key@));
    assert(keys_of(entries@) =~= keys.push(key@));
    assert(entry_views(entries@) =~= entry_views(before).push((key@, value)));
}

proof fn lemma_put_keys<V>(before: Seq<(ItemPath, V)>, after: Seq<(ItemPath, V)>, k: ItemPath, v: V)
    requires
        keys_of(before).contains(k@) ==> after == before.update(keys_of(before).index_of(k@), (k, v)),
        !keys_of(before).contains(k@) ==> after == before.push((k, v)),
    ensures
        keys_of(after).contains(k@),
        forall|q: PathModel| keys_of(before).contains(q) ==> keys_of(after).contains(q),
{
    if keys_of(before).contains(k@) {
        let i = keys_of(before).index_of(k@);
        assert(keys_of(after) =~= keys_of(before).update(i, k@));
        assert(keys_of(after)[i] == k@);
        assert forall|q: PathModel| keys_of(before).contains(q) implies keys_of(after).contains(q) by {
            let j = choose|j: int| 0 <= j < keys_of(before).len() && keys_of(before)[j] == q;
            assert(keys_of(after)[j] == q);
        }
    } else {
        assert(keys_of(after) =~= keys_of(before).push(k@));
        assert(keys_of(after)[before.len() as int] == k@);
        assert forall|q: PathModel| keys_of(before).contains(q) implies keys_of(after).contains(q) by {
            let j = choose|j: int| 0 <= j < keys_of(before).len() && keys_of(before)[j] == q;
            assert(keys_of(after)[j] == q);
        }
    }
}

/// Whether one of `tags` is one of `wanted`.
fn passes(wanted: &Vec<String>, tags: &Vec<String>) -> (r: bool)
    ensures
        r == passes_filter(Some(wanted.deep_view()), tags.deep_view()),
{
    let mut i: usize = 0;
    while i < tags.len()
        invariant
            i <= tags@.len(),
            forall|a: int, b: int| 0 <= a < i && 0 <= b < wanted@.len() ==> tags.deep_view()[a] != wanted.deep_view()[b],
        decreases tags@.len() - i,
    {
        let mut j: usize = 0;
        while j < wanted.len()
            invariant
                i < tags@.len(),
                j <= wanted@.len(),
                forall|a: int, b: int| 0 <= a < i && 0 <= b < wanted@.len() ==> tags.deep_view()[a] != wanted.deep_view()[b],
                forall|b: int| 0 <= b < j ==> tags.deep_view()[i as int] != wanted.deep_view()[b],
            decreases wanted@.len() - j,
        {
            if same_text(tags[i].as_str(), wanted[j].as_str()) {
                assert(tags.deep_view()[i as int] == wanted.deep_view()[j as int]);
                assert(wanted.deep_view().contains(tags.deep_view()[i as int]));
                return true;
            }
            j = j + 1;
        }
        i = i + 1;
    }
    assert forall|a: int| 0 <= a < tags.deep_view().len() implies !wanted.deep_view().contains(#[trigger] tags.deep_view()[a]) by {
        if wanted.deep_view().contains(tags.deep_view()[a]) {
            let b = choose|b: int| 0 <= b < wanted.deep_view().len() && wanted.deep_view()[b] == tags.deep_view()[a];
        }
    }
    false
}

impl VaultBuilder {
    /// The tags a note must carry one of to be kept, if a filter is set.
    pub closed spec fn tag_filter(&self) -> Option<Seq<Seq<char>>> {
        match self.tags {
            Some(v) => Some(v.deep_view()),
            None => None,
        }
    }

    /// The corpus directory.
    pub closed spec fn directory_text(&self) -> Seq<char> {
        self.directory@
    }

    /// A builder for the corpus at `directory`, without a tag filter.
    pub fn new(directory: &str) -> (r: VaultBuilder)
        ensures
            r.directory_text() == directory@,
            r.tag_filter() is None,
    {
        VaultBuilder { directory: directory.to_owned(), tags: None }
    }

    /// Keeps, from now on, only the notes that carry one of `tags`.
    pub fn filter_tags(&mut self, tags: Vec<String>) -> (r: &mut VaultBuilder)
        ensures
            r.directory_text() == old(self).directory_text(),
            r.tag_filter() == Some(tags.deep_view()),
            *final(self) == *final(r),
    {
        self.tags = Some(tags);
        self
    }

    /// Reads the files of the corpus into a vault. Each note file with a
    /// text is read as a note, titled with its file name without the
    /// extension; one that fails to read is left out, and so is one that
    /// does not pass the tag filter. Notes are filed under the
    /// components of their relative path with the extension taken off,
    /// assets under those of their relative path; a path met twice keeps
    /// the later file. The link graph is then built over the notes kept.
    pub fn build(self, files: Vec<VaultFile>) -> (r: Vault)
        ensures
            r.root_text() == self.directory_text(),
            entry_views(r.file_entries()) == asset_index(files@),
            forall|i: int| 0 <= i < r.note_entries().len() ==> passes_filter(self.tag_filter(), (#[trigger] r.note_entries()[i]).1.tags.deep_view())
                && filed_from(files@, r.note_entries()[i].0@, r.note_entries()[i].1),
            r.edges() == link_edges(note_links(r.note_entries())),
            forall|e: (PathModel, PathModel)| #[trigger] r.edges().contains(e)
                ==> r.note_paths().contains(e.0) && r.note_paths().contains(e.1),
            forall|k: int| 0 <= k < files@.len() && kept_file(#[trigger] files@[k], self.tag_filter())
                ==> r.note_paths().contains(PathModel::Absolute(stem_components(files@[k].relative_path@))),
    {
        let ghost all = files@;
        let ghost filter = self.tag_filter();
        let mut notes: Vec<(ItemPath, Note)> = Vec::new();
        let mut assets: Vec<(ItemPath, EmbeddedFile)> = Vec::new();
        assert(all.len() == files.len());
        let mut rest = files;
        let mut done: usize = 0;
        proof {
            assert(keys_of(notes@) =~= Seq::<PathModel>::empty());
            assert(keys_of(assets@) =~= Seq::<PathModel>::empty());
            assert(entry_views(assets@) =~= Seq::<(PathModel, EmbeddedFile)>::empty());
        }
        while rest.len() > 0
            invariant
                done + rest@.len() == all.len(),
                all.len() <= usize::MAX,
                rest@ == all.subrange(done as int, all.len() as int),
                filter == self.tag_filter(),
                unique_paths(keys_of(notes@)),
                unique_paths(keys_of(assets@)),
                entry_views(assets@) == asset_index(all.subrange(0, done as int)),
                forall|i: int| 0 <= i < notes@.len() ==> passes_filter(filter, (#[trigger] notes@[i]).1.tags.deep_view())
                    && filed_from(all, notes@[i].0@, notes@[i].1),
                forall|k: int| 0 <= k < done && kept_file(#[trigger] all[k], filter)
                    ==> keys_of(notes@).contains(PathModel::Absolute(stem_components(all[k].relative_path@))),
            decreases rest@.len(),
        {
            let file = rest.remove(0);
            assert(file == all[done as int]);
            assert(rest@ =~= all.subrange(done + 1, all.len() as int));
            let ghost prefix = all.subrange(0, done as int);
            assert(all.subrange(0, done + 1).drop_last() =~= prefix);
            assert(all.subrange(0, done + 1).last() == file);
            let parts = split_string(file.relative_path.as_str(), '/');
            proof {
                lemma_split_on_nonempty(file.relative_path@, '/');
            }
            let kind = classify(parts[parts.len() - 1].as_str());
            assert(parts.deep_view().last() == file_name_of(file.relative_path@));
            let ghost notes_before = notes@;
            let ghost keys_before = keys_of(notes@);
            match kind {
                FileKind::Note => {
                    match &file.content {
                        Some(text) => {
                            let path = ItemPath::from_path_without_ext(file.relative_path.as_str());
                            let title = match &path {
                                ItemPath::Absolute(parts) => if parts.len() > 0 {
                                    parts[parts.len() - 1].clone()
                                } else {
                                    String::new()
                                },
                                ItemPath::FileName(_) => String::new(),
                            };
                            assert(title@ == note_title(file));
                            let parsed = Note::parse(title.as_str(), text.as_str());
                            match parsed {
                                Ok(note) => {
                                    let ghost t = note.tags.deep_view();
                                    let kept = match &self.tags {
                                        Some(wanted) => passes(wanted, &note.tags),
                                        None => true,
                                    };
                                    assert(kept == passes_filter(filter, t));
                                    if kept {
                                        let ghost p = path;
                                        let ghost kept_note = note;
                                        put(&mut notes, path, note);
                                        proof {
                                            lemma_put_keys(notes_before, notes@, p, kept_note);
                                            assert(filed_from(all, p@, kept_note));
                                            assert forall|i: int| 0 <= i < notes@.len() implies passes_filter(filter, (#[trigger] notes@[i]).1.tags.deep_view())
                                                && filed_from(all, notes@[i].0@, notes@[i].1) by {
                                                if i < notes_before.len() && notes@[i] == notes_before[i] {
                                                } else {
                                                    assert(notes@[i] == (p, kept_note));
                                                }
                                            }
                                        }
                                    } else {
                                        assert(!kept_file(file, filter));
                                    }
                                },
                                Err(_) => {
                                    assert(!kept_file(file, filter));
                                },
                            }
                        },
                        None => {},
                    }
                },
                FileKind::Image => {
                    put(&mut assets, ItemPath::from_path(file.relative_path.as_str()), EmbeddedFile::Image(file.location));
                },
                FileKind::Audio => {
                    put(&mut assets, ItemPath::from_path(file.relative_path.as_str()), EmbeddedFile::Audio(file.location));
                },
                FileKind::Video => {
                    put(&mut assets, ItemPath::from_path(file.relative_path.as_str()), EmbeddedFile::Video(file.location));
                },
                FileKind::Pdf => {
                    put(&mut assets, ItemPath::from_path(file.relative_path.as_str()), EmbeddedFile::Pdf(file.location));
                },
                FileKind::Ignored => {},
            }
            proof {
                assert forall|k: int| 0 <= k < done + 1 && kept_file(#[trigger] all[k], filter)
                    implies keys_of(notes@).contains(PathModel::Absolute(stem_components(all[k].relative_path@))) by {
                    if k < done {
                        assert(keys_before.contains(PathModel::Absolute(stem_components(all[k].relative_path@))));
                    }
                }
            }
            done = done + 1;
        }
        assert(all.subrange(0, all.len() as int) == all);
        Vault::assemble(self.directory, notes, assets)
    }
}

} // verus!
