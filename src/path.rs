//! Canonical paths of notes and assets.
use vstd::prelude::*;
use crate::text::{
    chars_of, join_strings, join_with, lemma_split_on_nonempty, same_text, split_on, split_string,
    string_of, contains_char,
};

verus! {

/// A note or asset path: either a full path of segments, or a bare file
/// name that still has to be looked up.
#[derive(Debug, Clone, Eq, Hash, PartialOrd, Ord)]
pub enum ItemPath {
    Absolute(Vec<String>),
    FileName(String),
}

/// The mathematical value of an [`ItemPath`].
pub enum PathModel {
    Absolute(Seq<Seq<char>>),
    FileName(Seq<char>),
}

impl View for ItemPath {
    type V = PathModel;

    open spec fn view(&self) -> PathModel {
        match self {
            ItemPath::Absolute(parts) => PathModel::Absolute(parts.deep_view()),
            ItemPath::FileName(name) => PathModel::FileName(name@),
        }
    }
}

/// `s` read as a path: a string with a `/` is split into segments at every
/// `/`, any other string is a bare file name.
pub open spec fn path_of_text(s: Seq<char>) -> PathModel {
    if s.contains('/') {
        PathModel::Absolute(split_on(s, '/'))
    } else {
        PathModel::FileName(s)
    }
}

/// The text of a path: segments joined with `/`, or the bare name.
pub open spec fn text_of_path(p: PathModel) -> Seq<char> {
    match p {
        PathModel::Absolute(parts) => join_with(parts, '/'),
        PathModel::FileName(name) => name,
    }
}

/// A segment that the components of a filesystem path keep: neither empty
/// nor the current directory.
pub open spec fn kept_segment(seg: Seq<char>) -> bool {
    seg.len() > 0 && seg != seq!['.']
}

/// The segments of `segs` that [`kept_segment`] keeps, in order.
pub open spec fn kept_segments(segs: Seq<Seq<char>>) -> Seq<Seq<char>>
    decreases segs.len(),
{
    if segs.len() == 0 {
        Seq::<Seq<char>>::empty()
    } else if kept_segment(segs.last()) {
        kept_segments(segs.drop_last()).push(segs.last())
    } else {
        kept_segments(segs.drop_last())
    }
}

/// The components of a filesystem path written with `/` separators:
/// repeated separators and `.` segments are dropped, except for a leading
/// `.` of a relative path; a leading `/` is a component of its own.
pub open spec fn path_components(s: Seq<char>) -> Seq<Seq<char>> {
    let segs = split_on(s, '/');
    if segs[0] == seq!['.'] {
        seq![seq!['.']] + kept_segments(segs.drop_first())
    } else if s.len() > 0 && segs[0].len() == 0 {
        seq![seq!['/']] + kept_segments(segs.drop_first())
    } else {
        kept_segments(segs)
    }
}

/// A component that names a file, as opposed to `.`, `..` or the root.
pub open spec fn names_file(c: Seq<char>) -> bool {
    c != seq!['.'] && c != seq!['.', '.'] && c != seq!['/']
}

/// Index of the last `.` in `name`, or -1.
pub open spec fn last_dot(name: Seq<char>) -> int
    decreases name.len(),
{
    if name.len() == 0 {
        -1
    } else if name.last() == '.' {
        name.len() - 1
    } else {
        last_dot(name.drop_last())
    }
}

/// A file name without its extension: the part before the last `.`,
/// unless there is none or the only one leads the name.
pub open spec fn file_stem(name: Seq<char>) -> Seq<char> {
    if last_dot(name) <= 0 {
        name
    } else {
        name.subrange(0, last_dot(name))
    }
}

/// The components of a note's path with the extension taken off its file
/// name.
pub open spec fn stem_components(s: Seq<char>) -> Seq<Seq<char>> {
    let comps = path_components(s);
    if comps.len() > 0 && names_file(comps.last()) {
        comps.drop_last().push(file_stem(comps.last()))
    } else {
        comps
    }
}

proof fn lemma_last_dot_range(name: Seq<char>)
    ensures
        -1 <= last_dot(name) < name.len(),
        last_dot(name) >= 0 ==> name[last_dot(name)] == '.',
        forall|j: int| last_dot(name) < j < name.len() ==> name[j] != '.',
    decreases name.len(),
{
    if name.len() > 0 && name.last() != '.' {
        lemma_last_dot_range(name.drop_last());
        assert forall|j: int| last_dot(name) < j < name.len() implies name[j] != '.' by {
            if j < name.len() - 1 {
                assert(name[j] == name.drop_last()[j]);
            }
        }
    }
}

proof fn lemma_one_char(s: Seq<char>, c: char)
    ensures
        s == seq![c] <==> (s.len() == 1 && s[0] == c),
{
    if s.len() == 1 && s[0] == c {
        assert(s =~= seq![c]);
    }
}

proof fn lemma_two_chars(s: Seq<char>, c: char, d: char)
    ensures
        s == seq![c, d] <==> (s.len() == 2 && s[0] == c && s[1] == d),
{
    if s.len() == 2 && s[0] == c && s[1] == d {
        assert(s =~= seq![c, d]);
    }
}

fn kept_segments_of(segs: &Vec<String>, from: usize) -> (r: Vec<String>)
    requires
        from <= segs@.len(),
    ensures
        r.deep_view() == kept_segments(segs.deep_view().subrange(from as int, segs@.len() as int)),
{
    let mut out: Vec<String> = Vec::new();
    let mut i: usize = from;
    let ghost all = segs.deep_view();
    while i < segs.len()
        invariant
            from <= i <= segs@.len(),
            all == segs.deep_view(),
            out.deep_view() == kept_segments(all.subrange(from as int, i as int)),
        decreases segs@.len() - i,
    {
        let ghost pre = all.subrange(from as int, i as int);
        let ghost next = all.subrange(from as int, i as int + 1);
        assert(next.drop_last() == pre);
        assert(next.last() == segs@[i as int]@);
        let cs = chars_of(segs[i].as_str());
        let keep = cs.len() > 0 && !(cs.len() == 1 && cs[0] == '.');
        proof {
            lemma_one_char(cs@, '.');
        }
        if keep {
            out.push(segs[i].clone());
        }
        i = i + 1;
    }
    out
}

fn is_dot(s: &String) -> (r: bool)
    ensures
        r == (s@ == seq!['.']),
{
    let cs = chars_of(s.as_str());
    proof {
        lemma_one_char(cs@, '.');
    }
    cs.len() == 1 && cs[0] == '.'
}

fn components_of(s: &str) -> (r: Vec<String>)
    ensures
        r.deep_view() == path_components(s@),
{
    let segs = split_string(s, '/');
    proof {
        lemma_split_on_nonempty(s@, '/');
    }
    let ghost all = segs.deep_view();
    assert(all.drop_first() == all.subrange(1, all.len() as int));
    assert(all == all.subrange(0, all.len() as int));
    if is_dot(&segs[0]) {
        let mut out: Vec<String> = Vec::new();
        out.push(segs[0].clone());
        let rest = kept_segments_of(&segs, 1);
        out.append(&mut rest.clone());
        assert(out.deep_view() == seq![seq!['.']] + rest.deep_view());
        out
    } else if segs[0].as_str().is_empty() && !s.is_empty() {
        let mut out: Vec<String> = Vec::new();
        let slash: Vec<char> = vec!['/'];
        out.push(string_of(&slash, 1));
        assert(slash@.subrange(0, 1) == seq!['/']);
        let rest = kept_segments_of(&segs, 1);
        out.append(&mut rest.clone());
        assert(out.deep_view() == seq![seq!['/']] + rest.deep_view());
        out
    } else {
        kept_segments_of(&segs, 0)
    }
}


fn same_segments(a: &Vec<String>, b: &Vec<String>) -> (r: bool)
    ensures
        r == (a.deep_view() == b.deep_view()),
{
    if a.len() != b.len() {
        assert(a.deep_view().len() != b.deep_view().len());
        return false;
    }
    let mut i: usize = 0;
    while i < a.len()
        invariant
            i <= a@.len(),
            a@.len() == b@.len(),
            forall|j: int| 0 <= j < i ==> a.deep_view()[j] == b.deep_view()[j],
        decreases a@.len() - i,
    {
        if !same_text(a[i].as_str(), b[i].as_str()) {
            assert(a.deep_view()[i as int] != b.deep_view()[i as int]);
            return false;
        }
        i = i + 1;
    }
    assert(a.deep_view() == b.deep_view());
    true
}

fn copy_segments(a: &Vec<String>) -> (r: Vec<String>)
    ensures
        r.deep_view() == a.deep_view(),
{
    let mut out: Vec<String> = Vec::new();
    let mut i: usize = 0;
    while i < a.len()
        invariant
            i <= a@.len(),
            out.deep_view() == a.deep_view().subrange(0, i as int),
        decreases a@.len() - i,
    {
        out.push(a[i].clone());
        assert(a.deep_view().subrange(0, i as int + 1) == a.deep_view().subrange(0, i as int).push(a@[i as int]@));
        i = i + 1;
    }
    assert(a.deep_view().subrange(0, a@.len() as int) == a.deep_view());
    out
}

impl PartialEq for ItemPath {
    fn eq(&self, other: &ItemPath) -> (r: bool)
        ensures
            r == (self@ == other@),
    {
        match (self, other) {
            (ItemPath::Absolute(a), ItemPath::Absolute(b)) => same_segments(a, b),
            (ItemPath::FileName(a), ItemPath::FileName(b)) => same_text(a.as_str(), b.as_str()),
            _ => false,
        }
    }
}

impl vstd::std_specs::cmp::PartialEqSpecImpl for ItemPath {
    open spec fn obeys_eq_spec() -> bool {
        true
    }

    open spec fn eq_spec(&self, other: &ItemPath) -> bool {
        self@ == other@
    }
}

impl ItemPath {
    /// The path of an asset: the components of `path`, extension kept.
    pub fn from_path(path: &str) -> (r: ItemPath)
        ensures
            r@ == PathModel::Absolute(path_components(path@)),
    {
        ItemPath::Absolute(components_of(path))
    }

    /// The path of a note: the components of `path`, with the extension
    /// taken off the file name.
    pub fn from_path_without_ext(path: &str) -> (r: ItemPath)
        ensures
            r@ == PathModel::Absolute(stem_components(path@)),
    {
        let mut parts = components_of(path);
        let n = parts.len();
        if n == 0 {
            return ItemPath::Absolute(parts);
        }
        let name = chars_of(parts[n - 1].as_str());
        let names_a_file = !(name.len() == 1 && name[0] == '.')
            && !(name.len() == 2 && name[0] == '.' && name[1] == '.')
            && !(name.len() == 1 && name[0] == '/');
        proof {
            lemma_one_char(name@, '.');
            lemma_one_char(name@, '/');
            lemma_two_chars(name@, '.', '.');
        }
        if !names_a_file {
            return ItemPath::Absolute(parts);
        }
        let stem = stem_of(&name);
        let ghost before = parts.deep_view();
        parts.pop();
        parts.push(stem);
        assert(parts.deep_view() == before.drop_last().push(file_stem(name@)));
        ItemPath::Absolute(parts)
    }

    /// Reads `value` as a path: with a `/` it is split into segments at
    /// every `/`, otherwise it is a bare file name.
    pub fn from_text(value: String) -> (r: ItemPath)
        ensures
            r@ == path_of_text(value@),
    {
        if contains_char(value.as_str(), '/') {
            ItemPath::Absolute(split_string(value.as_str(), '/'))
        } else {
            ItemPath::FileName(value)
        }
    }

    /// The text of the path: segments joined with `/`, or the bare name.
    pub fn to_string(&self) -> (r: String)
        ensures
            r@ == text_of_path(self@),
    {
        match self {
            ItemPath::Absolute(parts) => join_strings(parts, '/'),
            ItemPath::FileName(name) => name.clone(),
        }
    }

    /// A second value equal to this one.
    pub fn duplicate(&self) -> (r: ItemPath)
        ensures
            r@ == self@,
    {
        match self {
            ItemPath::Absolute(parts) => ItemPath::Absolute(copy_segments(parts)),
            ItemPath::FileName(name) => ItemPath::FileName(name.clone()),
        }
    }
}

fn stem_of(name: &Vec<char>) -> (r: String)
    ensures
        r@ == file_stem(name@),
{
    proof {
        lemma_last_dot_range(name@);
    }
    let mut k: usize = name.len();
    while k > 0 && name[k - 1] != '.'
        invariant
            k <= name@.len(),
            forall|j: int| k <= j < name@.len() ==> name@[j] != '.',
        decreases k,
    {
        k = k - 1;
    }
    if k <= 1 {
        assert(last_dot(name@) <= 0) by {
            if last_dot(name@) > 0 {
                assert(name@[last_dot(name@)] == '.');
            }
        }
        assert(name@.subrange(0, name@.len() as int) == name@);
        string_of(name, name.len())
    } else {
        assert(last_dot(name@) == k - 1);
        string_of(name, k - 1)
    }
}

} // verus!
