//! The key/value block at the head of a note, and the tags it declares.
use vstd::prelude::*;
use crate::text::{chars_of, split_on, split_string};

verus! {

#[verifier::external_type_specification]
pub struct ExYamlValue(serde_yaml::Value);

#[verifier::external_type_specification]
#[verifier::external_body]
pub struct ExYamlNumber(serde_yaml::Number);

#[verifier::external_type_specification]
#[verifier::external_body]
pub struct ExYamlMapping(serde_yaml::Mapping);

#[verifier::external_type_specification]
#[verifier::external_body]
pub struct ExYamlTaggedValue(serde_yaml::value::TaggedValue);

#[verifier::external_type_specification]
#[verifier::external_body]
pub struct ExYamlError(serde_yaml::Error);

/// Whether serde_yaml reads `s` as a YAML document.
pub uninterp spec fn yaml_accepts(s: Seq<char>) -> bool;

/// The YAML value that serde_yaml reads from `s`.
pub uninterp spec fn yaml_value_of(s: Seq<char>) -> serde_yaml::Value;

/// Relies on `serde_yaml::from_str`: reads `s` as one YAML document, and
/// fails exactly on the texts that it does not accept; the value read
/// depends on `s` alone.
#[verifier::external_body]
fn yaml_from_str(s: &str) -> (r: Result<serde_yaml::Value, serde_yaml::Error>)
    ensures
        r is Ok <==> yaml_accepts(s@),
        r is Ok ==> r->Ok_0 == yaml_value_of(s@),
{
    serde_yaml::from_str(s)
}

/// The entries of a YAML mapping, in document order.
pub uninterp spec fn yaml_entries(v: serde_yaml::Value) -> Seq<(serde_yaml::Value, serde_yaml::Value)>;

/// Relies on `serde_yaml::Mapping::into_iter`: the entries of a YAML
/// mapping in insertion order, each value a part of the mapping; the
/// mapping's keys are distinct, so no two string keys hold the same text.
#[verifier::external_body]
fn mapping_entries(v: serde_yaml::Value) -> (r: Vec<(serde_yaml::Value, serde_yaml::Value)>)
    requires
        v is Mapping,
    ensures
        r@ == yaml_entries(v),
        distinct_keys(r@),
        forall|i: int| 0 <= i < r@.len() ==> decreases_to!(v => r@[i].1),
{
    match v {
        serde_yaml::Value::Mapping(m) => m.into_iter().collect(),
        _ => Vec::new(),
    }
}

/// White space as Unicode's `White_Space` property defines it.
pub open spec fn is_white_space(c: char) -> bool {
    ('\u{9}' <= c && c <= '\u{d}') || c == ' ' || c == '\u{85}' || c == '\u{a0}' || c == '\u{1680}'
        || ('\u{2000}' <= c && c <= '\u{200a}') || c == '\u{2028}' || c == '\u{2029}' || c == '\u{202f}'
        || c == '\u{205f}' || c == '\u{3000}'
}

/// `s` without its leading white space.
pub open spec fn trim_start(s: Seq<char>) -> Seq<char>
    decreases s.len(),
{
    if s.len() > 0 && is_white_space(s[0]) {
        trim_start(s.drop_first())
    } else {
        s
    }
}

/// `s` without its trailing white space.
pub open spec fn trim_end(s: Seq<char>) -> Seq<char>
    decreases s.len(),
{
    if s.len() > 0 && is_white_space(s.last()) {
        trim_end(s.drop_last())
    } else {
        s
    }
}

/// `s` without leading and trailing white space.
pub open spec fn trimmed(s: Seq<char>) -> Seq<char> {
    trim_end(trim_start(s))
}

/// Relies on `str::trim`: `s` without leading and trailing white space,
/// white space being the characters of Unicode's `White_Space` property.
#[verifier::external_body]
fn trim(s: &str) -> (r: &str)
    ensures
        r@ == trimmed(s@),
{
    s.trim()
}

/// A value of the key/value block.
#[derive(Debug, PartialEq)]
pub enum MetadataValue {
    Boolean(bool),
    List(Vec<MetadataValue>),
    Mapping(Vec<(String, MetadataValue)>),
    Null,
    Number(serde_yaml::Number),
    String(String),
}

/// Whether metadata value `m` holds exactly what YAML value `v` holds:
/// null, the same boolean, the same number, the same string, a list of
/// values that match the sequence's items one for one, or a mapping whose
/// entries match the YAML mapping's entries one for one, in order, each
/// YAML key a string equal to the entry's key.
pub open spec fn yaml_matches(v: serde_yaml::Value, m: MetadataValue) -> bool
    decreases m,
{
    match m {
        MetadataValue::Null => v is Null,
        MetadataValue::Boolean(b) => v == serde_yaml::Value::Bool(b),
        MetadataValue::Number(n) => v == serde_yaml::Value::Number(n),
        MetadataValue::String(s) => match v {
            serde_yaml::Value::String(t) => t@ == s@,
            _ => false,
        },
        MetadataValue::List(items) => match v {
            serde_yaml::Value::Sequence(xs) => xs@.len() == items@.len()
                && forall|i: int| 0 <= i < items@.len() ==> yaml_matches(xs@[i], #[trigger] items@[i]),
            _ => false,
        },
        MetadataValue::Mapping(es) => v is Mapping && yaml_entries(v).len() == es@.len()
            && forall|i: int| 0 <= i < es@.len() ==> yaml_key_is(yaml_entries(v)[i].0, (#[trigger] es@[i]).0@)
                && yaml_matches(yaml_entries(v)[i].1, es@[i].1),
    }
}

/// Whether a tagged value (`!Tag value`) lies in `v` at most `d` levels
/// down.
pub open spec fn tagged_within(v: serde_yaml::Value, d: nat) -> bool
    decreases d,
{
    if d == 0 {
        false
    } else {
        match v {
            serde_yaml::Value::Tagged(_) => true,
            serde_yaml::Value::Sequence(xs) => exists|i: int| 0 <= i < xs@.len() && tagged_within(#[trigger] xs@[i], (d - 1) as nat),
            serde_yaml::Value::Mapping(_) => exists|i: int| 0 <= i < yaml_entries(v).len()
                && tagged_within(#[trigger] yaml_entries(v)[i].1, (d - 1) as nat),
            _ => false,
        }
    }
}

/// Whether a tagged value lies anywhere in `v`.
pub open spec fn has_tagged(v: serde_yaml::Value) -> bool {
    exists|d: nat| tagged_within(v, d)
}

/// What a failed conversion of `v` reports: a key-type error, or an
/// unsupported tagged value when `v` holds one.
pub open spec fn conversion_error(v: serde_yaml::Value, e: MetadataError) -> bool {
    e is MetadataMappingKeyTypeError || (e is UnsupportedTaggedValue && has_tagged(v))
}

/// Whether YAML value `k` is the string `s`.
pub open spec fn yaml_key_is(k: serde_yaml::Value, s: Seq<char>) -> bool {
    match k {
        serde_yaml::Value::String(t) => t@ == s,
        _ => false,
    }
}

/// Why a key/value block could not be read.
#[derive(Debug)]
pub enum MetadataError {
    /// The block is not a mapping, or a mapping in it has a key that is not
    /// a string.
    MetadataMappingKeyTypeError(),
    /// The block is not valid YAML.
    FrontMatterYamlError(serde_yaml::Error),
    /// The block holds a tagged value (`!Tag value`), which has no
    /// counterpart among the metadata values.
    UnsupportedTaggedValue(),
}

/// The key/value block of a note, its entries in document order; no key
/// occurs twice.
#[derive(Debug, PartialEq)]
pub struct Metadata {
    inner: Vec<(String, MetadataValue)>,
}

/// The value that `entries` gives to `key`, the first one if any.
pub open spec fn value_for(entries: Seq<(String, MetadataValue)>, key: Seq<char>) -> Option<MetadataValue>
    decreases entries.len(),
{
    if entries.len() == 0 {
        None
    } else if entries[0].0@ == key {
        Some(entries[0].1)
    } else {
        value_for(entries.drop_first(), key)
    }
}

/// The string elements of a list, in order; other elements are skipped.
pub open spec fn string_items(items: Seq<MetadataValue>) -> Seq<Seq<char>>
    decreases items.len(),
{
    if items.len() == 0 {
        Seq::<Seq<char>>::empty()
    } else {
        let rest = string_items(items.drop_last());
        match items.last() {
            MetadataValue::String(s) => rest.push(s@),
            _ => rest,
        }
    }
}

pub open spec fn key_tag() -> Seq<char> {
    seq!['t', 'a', 'g']
}

pub open spec fn key_tags() -> Seq<char> {
    seq!['t', 'a', 'g', 's']
}

/// The tags that a key/value block declares: the pieces of a string `tag`
/// cut at each comma and trimmed, then the string elements of a list
/// `tags`.
pub open spec fn declared_tags(entries: Seq<(String, MetadataValue)>) -> Seq<Seq<char>> {
    let scalar = match value_for(entries, key_tag()) {
        Some(MetadataValue::String(s)) => split_on(s@, ',').map_values(|p: Seq<char>| trimmed(p)),
        _ => Seq::<Seq<char>>::empty(),
    };
    let listed = match value_for(entries, key_tags()) {
        Some(MetadataValue::List(items)) => string_items(items@),
        _ => Seq::<Seq<char>>::empty(),
    };
    scalar + listed
}

/// Keys of `entries`, each once.
pub open spec fn unique_keys(entries: Seq<(String, MetadataValue)>) -> bool {
    forall|i: int, j: int| 0 <= i < j < entries.len() ==> entries[i].0@ != entries[j].0@
}

proof fn lemma_value_for_set(before: Seq<(String, MetadataValue)>, i: int, after: Seq<(String, MetadataValue)>)
    requires
        unique_keys(before),
        0 <= i < before.len(),
        after.len() == before.len(),
        after[i].0@ == before[i].0@,
        forall|j: int| 0 <= j < before.len() && j != i ==> after[j] == before[j],
    ensures
        unique_keys(after),
        value_for(after, after[i].0@) == Some(after[i].1),
        forall|k: Seq<char>| k != after[i].0@ ==> value_for(after, k) == value_for(before, k),
    decreases before.len(),
{
    assert forall|k: Seq<char>| k != after[i].0@ implies value_for(after, k) == value_for(before, k) by {
        lemma_value_for_agree(before, after, k, i);
    }
    lemma_value_for_at(after, i);
}

proof fn lemma_value_for_agree(before: Seq<(String, MetadataValue)>, after: Seq<(String, MetadataValue)>, k: Seq<char>, i: int)
    requires
        0 <= i < before.len(),
        after.len() == before.len(),
        after[i].0@ == before[i].0@,
        k != after[i].0@,
        forall|j: int| 0 <= j < before.len() && j != i ==> after[j] == before[j],
    ensures
        value_for(after, k) == value_for(before, k),
    decreases before.len(),
{
    if before.len() > 0 && i > 0 && before[0].0@ != k {
        lemma_value_for_agree(before.drop_first(), after.drop_first(), k, i - 1);
    }
    if before.len() > 0 && i == 0 {
        assert(after.drop_first() == before.drop_first());
    }
}

proof fn lemma_value_for_at(entries: Seq<(String, MetadataValue)>, i: int)
    requires
        unique_keys(entries),
        0 <= i < entries.len(),
    ensures
        value_for(entries, entries[i].0@) == Some(entries[i].1),
    decreases i,
{
    if i > 0 {
        assert(entries[0].0@ != entries[i].0@);
        lemma_value_for_at(entries.drop_first(), i - 1);
    }
}

proof fn lemma_value_for_push(before: Seq<(String, MetadataValue)>, after: Seq<(String, MetadataValue)>)
    requires
        unique_keys(before),
        after.len() == before.len() + 1,
        forall|j: int| 0 <= j < before.len() ==> after[j] == before[j],
        forall|j: int| 0 <= j < before.len() ==> before[j].0@ != after.last().0@,
    ensures
        unique_keys(after),
        after == before.push(after.last()),
        value_for(after, after.last().0@) == Some(after.last().1),
        forall|k: Seq<char>| k != after.last().0@ ==> value_for(after, k) == value_for(before, k),
{
    assert(after =~= before.push(after.last()));
    lemma_value_for_at(after, before.len() as int);
    assert forall|k: Seq<char>| k != after.last().0@ implies value_for(after, k) == value_for(before, k) by {
        lemma_value_for_push_other(before, after.last(), k);
    }
}

proof fn lemma_value_for_push_other(before: Seq<(String, MetadataValue)>, e: (String, MetadataValue), k: Seq<char>)
    requires
        k != e.0@,
    ensures
        value_for(before.push(e), k) == value_for(before, k),
    decreases before.len(),
{
    if before.len() > 0 && before[0].0@ != k {
        assert(before.push(e).drop_first() == before.drop_first().push(e));
        lemma_value_for_push_other(before.drop_first(), e, k);
    }
    if before.len() == 0 {
        assert(before.push(e).drop_first() == before);
    }
}

fn is_word(s: &String, w: &Vec<char>) -> (r: bool)
    ensures
        r == (s@ == w@),
{
    let cs = chars_of(s.as_str());
    if cs.len() != w.len() {
        return false;
    }
    let mut i: usize = 0;
    while i < cs.len()
        invariant
            i <= cs@.len(),
            cs@.len() == w@.len(),
            cs@ == s@,
            forall|j: int| 0 <= j < i ==> cs@[j] == w@[j],
        decreases cs@.len() - i,
    {
        if cs[i] != w[i] {
            return false;
        }
        i = i + 1;
    }
    assert(cs@ == w@);
    true
}

fn find_value<'a>(entries: &'a Vec<(String, MetadataValue)>, key: &Vec<char>) -> (r: Option<&'a MetadataValue>)
    ensures
        match r {
            Some(v) => value_for(entries@, key@) == Some(*v),
            None => value_for(entries@, key@) is None,
        },
{
    let mut i: usize = 0;
    assert(entries@.subrange(0, entries@.len() as int) == entries@);
    while i < entries.len()
        invariant
            i <= entries@.len(),
            value_for(entries@, key@) == value_for(entries@.subrange(i as int, entries@.len() as int), key@),
        decreases entries@.len() - i,
    {
        let ghost rest = entries@.subrange(i as int, entries@.len() as int);
        assert(rest.drop_first() == entries@.subrange(i as int + 1, entries@.len() as int));
        if is_word(&entries[i].0, key) {
            return Some(&entries[i].1);
        }
        i = i + 1;
    }
    None
}

impl Metadata {
    /// The entries, in document order.
    pub closed spec fn entries(&self) -> Seq<(String, MetadataValue)> {
        self.inner@
    }

    /// A block with the given entries, in the given order. A key given
    /// twice keeps its last value, at the place where it came first.
    pub fn from(entries: Vec<(String, MetadataValue)>) -> (r: Metadata)
        ensures
            unique_keys(r.entries()),
            unique_keys(entries@) ==> r.entries() == entries@,
    {
        let ghost all = entries@;
        let mut m = Metadata { inner: Vec::new() };
        let mut rest = entries;
        while rest.len() > 0
            invariant
                unique_keys(m.inner@),
                all == m.inner@ + rest@ || !unique_keys(all),
                unique_keys(all) ==> unique_keys(m.inner@ + rest@),
            decreases rest@.len(),
        {
            let ghost before = m.inner@ + rest@;
            let (k, v) = rest.remove(0);
            proof {
                if unique_keys(all) {
                    assert forall|j: int| 0 <= j < m.inner@.len() implies m.inner@[j].0@ != k@ by {
                        assert(before[j] == m.inner@[j]);
                        assert(before[m.inner@.len() as int].0@ == k@);
                    }
                }
            }
            m.insert(k, v);
            proof {
                if unique_keys(all) {
                    assert(m.inner@ + rest@ =~= before);
                }
            }
        }
        assert(m.inner@ + rest@ =~= m.inner@);
        m
    }

    /// Sets `key` to `value`: in place if the key is there, else at the end.
    pub fn insert(&mut self, key: String, value: MetadataValue)
        requires
            unique_keys(old(self).entries()),
        ensures
            unique_keys(final(self).entries()),
            value_for(final(self).entries(), key@) == Some(value),
            forall|k: Seq<char>| k != key@ ==> value_for(final(self).entries(), k) == value_for(old(self).entries(), k),
            (forall|j: int| 0 <= j < old(self).entries().len() ==> old(self).entries()[j].0@ != key@)
                ==> final(self).entries() == old(self).entries().push((key, value)),
    {
        let key_chars = chars_of(key.as_str());
        let mut i: usize = 0;
        while i < self.inner.len()
            invariant
                i <= self.inner@.len(),
                self.inner@ == old(self).inner@,
                unique_keys(self.inner@),
                key_chars@ == key@,
                forall|j: int| 0 <= j < i ==> self.inner@[j].0@ != key@,
            decreases self.inner@.len() - i,
        {
            if is_word(&self.inner[i].0, &key_chars) {
                let ghost before = self.inner@;
                self.inner.set(i, (key, value));
                proof {
                    lemma_value_for_set(before, i as int, self.inner@);
                }
                return;
            }
            i = i + 1;
        }
        let ghost before = self.inner@;
        self.inner.push((key, value));
        proof {
            lemma_value_for_push(before, self.inner@);
        }
    }

    /// The tags that the block declares (see [`declared_tags`]).
    pub fn tags(&self) -> (r: Vec<String>)
        ensures
            r.deep_view() == declared_tags(self.entries()),
    {
        let mut tags: Vec<String> = Vec::new();
        let tag_key: Vec<char> = vec!['t', 'a', 'g'];
        let tags_key: Vec<char> = vec!['t', 'a', 'g', 's'];
        assert(tag_key@ == key_tag());
        assert(tags_key@ == key_tags());
        match find_value(&self.inner, &tag_key) {
            Some(MetadataValue::String(tag)) => {
                let pieces = split_string(tag.as_str(), ',');
                let mut i: usize = 0;
                while i < pieces.len()
                    invariant
                        i <= pieces@.len(),
                        tags.deep_view() == pieces.deep_view().subrange(0, i as int).map_values(|p: Seq<char>| trimmed(p)),
                    decreases pieces@.len() - i,
                {
                    let t = trim(pieces[i].as_str());
                    tags.push(t.to_owned());
                    assert(pieces.deep_view().subrange(0, i as int + 1).map_values(|p: Seq<char>| trimmed(p))
                        == pieces.deep_view().subrange(0, i as int).map_values(|p: Seq<char>| trimmed(p)).push(trimmed(pieces@[i as int]@)));
                    i = i + 1;
                }
                assert(pieces.deep_view().subrange(0, pieces@.len() as int) == pieces.deep_view());
            },
            _ => {},
        }
        let ghost scalar = tags.deep_view();
        match find_value(&self.inner, &tags_key) {
            Some(MetadataValue::List(items)) => {
                let mut i: usize = 0;
                while i < items.len()
                    invariant
                        i <= items@.len(),
                        tags.deep_view() == scalar + string_items(items@.subrange(0, i as int)),
                    decreases items@.len() - i,
                {
                    assert(items@.subrange(0, i as int + 1).drop_last() == items@.subrange(0, i as int));
                    assert(items@.subrange(0, i as int + 1).last() == items@[i as int]);
                    let ghost before = tags.deep_view();
                    match &items[i] {
                        MetadataValue::String(t) => {
                            tags.push(t.clone());
                            assert(tags.deep_view() =~= before.push(t@));
                        },
                        _ => {},
                    }
                    i = i + 1;
                }
                assert(items@.subrange(0, items@.len() as int) == items@);
            },
            _ => {
                assert(scalar + Seq::<Seq<char>>::empty() == scalar);
            },
        }
        tags
    }
}


/// The line `---` that opens and closes a key/value block.
pub open spec fn marker() -> Seq<char> {
    seq!['-', '-', '-', '\n']
}

/// A marker line starts at `k` in `s`: at the start of a line.
pub open spec fn marker_at(s: Seq<char>, k: int) -> bool {
    0 <= k && k + 4 <= s.len() && s.subrange(k, k + 4) == marker() && (k == 0 || s[k - 1] == '\n')
}

/// The first marker line in `s` at or after `i`, or -1.
pub open spec fn marker_from(s: Seq<char>, i: int) -> int
    decreases s.len() - i,
{
    if i < 0 || i + 4 > s.len() {
        -1
    } else if marker_at(s, i) {
        i
    } else {
        marker_from(s, i + 1)
    }
}

/// A note's text cut into its key/value block, if it has one, and its
/// body. A note that starts with a marker line and has a second one has a
/// block between the two; its body follows the second. A note that starts
/// with a marker line and has no second one is all body after the first.
/// Any other note is all body.
pub open spec fn frontmatter_split(c: Seq<char>) -> (Option<Seq<char>>, Seq<char>) {
    if c.len() >= 4 && c.subrange(0, 4) == marker() {
        let rest = c.subrange(4, c.len() as int);
        let k = marker_from(rest, 0);
        if k >= 0 {
            (Some(rest.subrange(0, k)), rest.subrange(k + 4, rest.len() as int))
        } else {
            (None, rest)
        }
    } else {
        (None, c)
    }
}

fn marker_at_exec(cs: &Vec<char>, k: usize) -> (r: bool)
    ensures
        r == marker_at(cs@, k as int),
{
    if k > cs.len() || cs.len() - k < 4 {
        return false;
    }
    let line_start = k == 0 || cs[k - 1] == '\n';
    let is_marker = cs[k] == '-' && cs[k + 1] == '-' && cs[k + 2] == '-' && cs[k + 3] == '\n';
    assert(is_marker <==> cs@.subrange(k as int, k + 4) == marker()) by {
        if is_marker {
            assert(cs@.subrange(k as int, k + 4) =~= marker());
        }
        if cs@.subrange(k as int, k + 4) == marker() {
            assert(cs@.subrange(k as int, k + 4)[0] == '-');
            assert(cs@.subrange(k as int, k + 4)[1] == '-');
            assert(cs@.subrange(k as int, k + 4)[2] == '-');
            assert(cs@.subrange(k as int, k + 4)[3] == '\n');
        }
    }
    line_start && is_marker
}

proof fn lemma_marker_shift(c: Seq<char>, k: int)
    requires
        4 <= k,
        4 <= c.len(),
    ensures
        marker_at(c.subrange(4, c.len() as int), k - 4) == (k + 4 <= c.len() && c.subrange(k, k + 4) == marker() && (k == 4 || c[k - 1] == '\n')),
{
    let rest = c.subrange(4, c.len() as int);
    if k + 4 <= c.len() {
        assert(rest.subrange(k - 4, k) =~= c.subrange(k, k + 4));
        if k > 4 {
            assert(rest[k - 5] == c[k - 1]);
        }
    }
}

impl MetadataValue {
    /// Converts a YAML value into the metadata value that holds exactly
    /// what it holds (see [`yaml_matches`]); fails exactly when there is
    /// none: when a mapping in it has a key that is not a string, or it
    /// holds a tagged value.
    #[verifier::loop_isolation(false)]
    pub fn try_from_yaml(value: serde_yaml::Value) -> (r: Result<MetadataValue, MetadataError>)
        ensures
            match r {
                Ok(m) => yaml_matches(value, m),
                Err(e) => conversion_error(value, e) && forall|m: MetadataValue| !yaml_matches(value, m),
            },
        decreases value,
    {
        let ghost whole = value;
        let is_mapping = match &value {
            serde_yaml::Value::Mapping(_) => true,
            _ => false,
        };
        if is_mapping {
            let mut rest = mapping_entries(value);
            let ghost all = rest@;
            let mut entries: Vec<(String, MetadataValue)> = Vec::new();
            while rest.len() > 0
                invariant
                    all == yaml_entries(whole),
                    forall|i: int| 0 <= i < all.len() ==> decreases_to!(whole => all[i].1),
                    rest@.len() <= all.len(),
                    rest@ == all.subrange(all.len() - rest@.len(), all.len() as int),
                    entries@.len() == all.len() - rest@.len(),
                    forall|i: int| 0 <= i < entries@.len() ==> yaml_key_is(all[i].0, (#[trigger] entries@[i]).0@)
                        && yaml_matches(all[i].1, entries@[i].1),
                decreases rest@.len(),
            {
                let ghost k = all.len() - rest@.len();
                let (key, item) = rest.remove(0);
                assert(item == all[k].1);
                assert(key == all[k].0);
                assert(rest@ =~= all.subrange(all.len() - rest@.len(), all.len() as int));
                let key = match key {
                    serde_yaml::Value::String(k) => k,
                    _ => {
                        assert forall|m: MetadataValue| !yaml_matches(whole, m) by {
                            if let MetadataValue::Mapping(es) = m {
                                if yaml_matches(whole, m) {
                                    assert(yaml_key_is(all[k].0, es@[k].0@));
                                }
                            }
                        }
                        return Err(MetadataError::MetadataMappingKeyTypeError());
                    },
                };
                assert(decreases_to!(whole => item));
                match MetadataValue::try_from_yaml(item) {
                    Ok(v) => {
                        entries.push((key, v));
                    },
                    Err(e) => {
                        assert forall|m: MetadataValue| !yaml_matches(whole, m) by {
                            if let MetadataValue::Mapping(es) = m {
                                if yaml_matches(whole, m) {
                                    assert(yaml_matches(all[k].1, es@[k].1));
                                }
                            }
                        }
                        proof {
                            if e is UnsupportedTaggedValue {
                                let d = choose|d: nat| tagged_within(all[k].1, d);
                                assert(tagged_within(whole, d + 1));
                            }
                        }
                        return Err(e);
                    },
                }
            }
            let r = MetadataValue::Mapping(entries);
            assert(yaml_matches(whole, r));
            return Ok(r);
        }
        match value {
            serde_yaml::Value::Null => Ok(MetadataValue::Null),
            serde_yaml::Value::Bool(b) => Ok(MetadataValue::Boolean(b)),
            serde_yaml::Value::Number(n) => Ok(MetadataValue::Number(n)),
            serde_yaml::Value::String(s) => Ok(MetadataValue::String(s)),
            serde_yaml::Value::Sequence(values) => {
                let ghost all = values;
                let mut rest = values;
                let mut items: Vec<MetadataValue> = Vec::new();
                while rest.len() > 0
                    invariant
                        whole == serde_yaml::Value::Sequence(all),
                        decreases_to!(whole => all),
                        rest@.len() <= all@.len(),
                        rest@ == all@.subrange(all@.len() - rest@.len(), all@.len() as int),
                        items@.len() == all@.len() - rest@.len(),
                        forall|i: int| 0 <= i < items@.len() ==> yaml_matches(all@[i], #[trigger] items@[i]),
                    decreases rest@.len(),
                {
                    let ghost k = all@.len() - rest@.len();
                    let item = rest.remove(0);
                    assert(item == all@[k]);
                    assert(rest@ =~= all@.subrange(all@.len() - rest@.len(), all@.len() as int));
                    proof {
                        vstd::std_specs::vec::axiom_vec_index_decreases(all, k);
                    }
                    assert(decreases_to!(whole => item));
                    match MetadataValue::try_from_yaml(item) {
                        Ok(v) => items.push(v),
                        Err(e) => {
                            assert forall|m: MetadataValue| !yaml_matches(whole, m) by {
                                if let MetadataValue::List(ys) = m {
                                    if yaml_matches(whole, m) {
                                        assert(yaml_matches(all@[k], ys@[k]));
                                    }
                                }
                            }
                            proof {
                                if e is UnsupportedTaggedValue {
                                    let d = choose|d: nat| tagged_within(all@[k], d);
                                    assert(tagged_within(whole, d + 1));
                                }
                            }
                            return Err(e);
                        },
                    }
                }
                let r = MetadataValue::List(items);
                assert(yaml_matches(whole, r));
                Ok(r)
            },
            serde_yaml::Value::Mapping(_) => Err(MetadataError::MetadataMappingKeyTypeError()),
            serde_yaml::Value::Tagged(_) => {
                assert(tagged_within(whole, 1));
                Err(MetadataError::UnsupportedTaggedValue())
            },
        }
    }
}

/// Whether `md` is what a key/value block with text `b` reads as: the
/// text is YAML, its value can be read as metadata, and `md` holds it.
pub open spec fn block_read(b: Seq<char>, md: Metadata) -> bool {
    yaml_accepts(b) && metadata_ok(yaml_value_of(b)) && metadata_reads(yaml_value_of(b), md)
}

/// Whether `e` is what reading a key/value block with text `b` fails
/// with: `FrontMatterYamlError` when the text is not YAML, else an error
/// of [`metadata_error`] when its value cannot be read as metadata.
pub open spec fn block_error(b: Seq<char>, e: MetadataError) -> bool {
    if !yaml_accepts(b) {
        e is FrontMatterYamlError
    } else {
        !metadata_ok(yaml_value_of(b)) && metadata_error(yaml_value_of(b), e)
    }
}

/// Whether `md` is the metadata of a note with text `c`: empty without a
/// key/value block, else what the block reads as.
pub open spec fn frontmatter_read(c: Seq<char>, md: Metadata) -> bool {
    match frontmatter_split(c).0 {
        None => md.entries().len() == 0,
        Some(b) => block_read(b, md),
    }
}

/// Whether `e` is what reading the key/value block of a note with text
/// `c` fails with; a note without a block cannot fail.
pub open spec fn frontmatter_error(c: Seq<char>, e: MetadataError) -> bool {
    match frontmatter_split(c).0 {
        None => false,
        Some(b) => block_error(b, e),
    }
}

/// Whether the key/value block of a note with text `c`, if any, can be
/// read.
pub open spec fn frontmatter_readable(c: Seq<char>) -> bool {
    match frontmatter_split(c).0 {
        None => true,
        Some(b) => yaml_accepts(b) && metadata_ok(yaml_value_of(b)),
    }
}

/// The string a YAML key holds, if it is a string.
pub open spec fn yaml_key_text(k: serde_yaml::Value) -> Option<Seq<char>> {
    match k {
        serde_yaml::Value::String(t) => Some(t@),
        _ => None,
    }
}

/// No two entries have the same string key.
pub open spec fn distinct_keys(es: Seq<(serde_yaml::Value, serde_yaml::Value)>) -> bool {
    forall|i: int, j: int| 0 <= i < j < es.len() && yaml_key_text(es[i].0) is Some
        ==> yaml_key_text(es[i].0) != yaml_key_text(es[j].0)
}

/// Whether a YAML value can be read as metadata: a mapping whose keys are
/// all strings and whose values all have a metadata counterpart.
pub open spec fn metadata_ok(v: serde_yaml::Value) -> bool {
    &&& v is Mapping
    &&& forall|i: int| 0 <= i < yaml_entries(v).len() ==> yaml_key_text(#[trigger] yaml_entries(v)[i].0) is Some
        && exists|m: MetadataValue| yaml_matches(yaml_entries(v)[i].1, m)
}

/// Whether `md` holds exactly the entries of YAML mapping `v`: one for
/// one, in order, under the same string keys, each value matched by
/// [`yaml_matches`].
pub open spec fn metadata_reads(v: serde_yaml::Value, md: Metadata) -> bool {
    &&& md.entries().len() == yaml_entries(v).len()
    &&& forall|i: int| 0 <= i < md.entries().len() ==> yaml_key_is(yaml_entries(v)[i].0, (#[trigger] md.entries()[i]).0@)
        && yaml_matches(yaml_entries(v)[i].1, md.entries()[i].1)
}

/// What reading YAML value `v` as metadata reports on failure: a key-type
/// error when `v` is not a mapping or holds no tagged value, else possibly
/// an unsupported tagged value.
pub open spec fn metadata_error(v: serde_yaml::Value, e: MetadataError) -> bool {
    &&& e is MetadataMappingKeyTypeError || (e is UnsupportedTaggedValue && v is Mapping
        && exists|i: int| 0 <= i < yaml_entries(v).len() && has_tagged(#[trigger] yaml_entries(v)[i].1))
}

impl Metadata {
    /// Reads a YAML mapping into metadata: each entry becomes an entry
    /// under the same string key, its value converted as
    /// [`MetadataValue::try_from_yaml`] does, in document order. Fails when
    /// the value is not a mapping, a key is not a string, or a value has
    /// no metadata counterpart.
    #[verifier::loop_isolation(false)]
    pub fn from_yaml(value: serde_yaml::Value) -> (r: Result<Metadata, MetadataError>)
        ensures
            r is Ok <==> metadata_ok(value),
            match r {
                Ok(md) => metadata_reads(value, md) && unique_keys(md.entries()),
                Err(e) => metadata_error(value, e),
            },
    {
        let is_mapping = match &value {
            serde_yaml::Value::Mapping(_) => true,
            _ => false,
        };
        if !is_mapping {
            return Err(MetadataError::MetadataMappingKeyTypeError());
        }
        let ghost whole = value;
        let mut rest = mapping_entries(value);
        let ghost all = rest@;
        let mut metadata = Metadata { inner: Vec::new() };
        while rest.len() > 0
            invariant
                whole is Mapping,
                all == yaml_entries(whole),
                unique_keys(metadata.inner@),
                rest@.len() <= all.len(),
                rest@ == all.subrange(all.len() - rest@.len(), all.len() as int),
                distinct_keys(all),
                metadata.inner@.len() == all.len() - rest@.len(),
                forall|i: int| 0 <= i < metadata.inner@.len() ==> yaml_key_is(all[i].0, (#[trigger] metadata.inner@[i]).0@)
                    && yaml_matches(all[i].1, metadata.inner@[i].1),
            decreases rest@.len(),
        {
            let ghost k = all.len() - rest@.len();
            let (key, item) = rest.remove(0);
            assert(item == all[k].1);
            assert(key == all[k].0);
            assert(rest@ =~= all.subrange(all.len() - rest@.len(), all.len() as int));
            let key = match key {
                serde_yaml::Value::String(k) => k,
                _ => {
                    assert(yaml_key_text(all[k].0) is None);
                    assert(yaml_key_text(yaml_entries(whole)[k].0) is None);
                    assert(!metadata_ok(whole));
                    return Err(MetadataError::MetadataMappingKeyTypeError());
                },
            };
            match MetadataValue::try_from_yaml(item) {
                Ok(v) => {
                    let ghost before = metadata.inner@;
                    proof {
                        assert forall|j: int| 0 <= j < before.len() implies before[j].0@ != key@ by {
                            assert(yaml_key_is(all[j].0, before[j].0@));
                            assert(yaml_key_text(all[j].0) != yaml_key_text(all[k].0));
                        }
                    }
                    metadata.insert(key, v);
                },
                Err(e) => {
                    assert(forall|m: MetadataValue| !yaml_matches(yaml_entries(whole)[k].1, m));
                    assert(!metadata_ok(whole)) by {
                        if metadata_ok(whole) {
                            assert(exists|m: MetadataValue| yaml_matches(yaml_entries(whole)[k].1, m));
                        }
                    }
                    assert(e is UnsupportedTaggedValue ==> has_tagged(yaml_entries(whole)[k].1));
                    return Err(e);
                },
            }
        }
        proof {
            assert forall|i: int| 0 <= i < yaml_entries(whole).len() implies yaml_key_text(#[trigger] yaml_entries(whole)[i].0) is Some
                && exists|m: MetadataValue| yaml_matches(yaml_entries(whole)[i].1, m) by {
                assert(yaml_key_is(all[i].0, metadata.inner@[i].0@));
                assert(yaml_matches(all[i].1, metadata.inner@[i].1));
            }
        }
        Ok(metadata)
    }
}

/// Reads the entries of a key/value block held as YAML text.
fn metadata_of(yaml: &str) -> (r: Result<Metadata, MetadataError>)
    ensures
        match r {
            Ok(md) => block_read(yaml@, md) && unique_keys(md.entries()),
            Err(e) => block_error(yaml@, e),
        },
{
    let value = match yaml_from_str(yaml) {
        Ok(v) => v,
        Err(e) => return Err(MetadataError::FrontMatterYamlError(e)),
    };
    Metadata::from_yaml(value)
}

/// Cuts `content` into its key/value block, read into metadata, and its
/// body (see [`frontmatter_split`]). Without a block the metadata is empty
/// and the call succeeds; with one it fails with `FrontMatterYamlError`
/// exactly when the block is not YAML, and with another error when the
/// block is not a mapping with string keys or holds a tagged value.
pub fn parse_frontmatter(content: &str) -> (r: Result<(Metadata, &str), MetadataError>)
    ensures
        r is Ok <==> frontmatter_readable(content@),
        match r {
            Ok((md, body)) => frontmatter_read(content@, md) && body@ == frontmatter_split(content@).1
                && unique_keys(md.entries()),
            Err(e) => frontmatter_error(content@, e),
        },
{
    let cs = chars_of(content);
    let n = cs.len();
    let empty = Metadata { inner: Vec::new() };
    if !marker_at_exec(&cs, 0) {
        assert(!(cs@.len() >= 4 && cs@.subrange(0, 4) == marker()));
        assert(content@.subrange(0, content@.len() as int) == content@);
        return Ok((empty, content.substring_char(0, n)));
    }
    let ghost c = content@;
    let ghost rest = c.subrange(4, c.len() as int);
    assert(c.subrange(0, 4)[3] == '\n');
    let mut k: usize = 4;
    proof {
        assert(marker_from(rest, 0) == marker_from(rest, k - 4));
    }
    while n - k >= 4 && !marker_at_exec(&cs, k)
        invariant
            4 <= k <= n,
            n == cs@.len(),
            cs@ == c,
            rest == c.subrange(4, c.len() as int),
            c[3] == '\n',
            marker_from(rest, 0) == marker_from(rest, k - 4),
        decreases n - k,
    {
        proof {
            lemma_marker_shift(c, k as int);
        }
        k = k + 1;
    }
    if n - k < 4 {
        assert(marker_from(rest, 0) == -1);
        return Ok((empty, content.substring_char(4, n)));
    }
    proof {
        lemma_marker_shift(c, k as int);
        assert(marker_from(rest, 0) == k - 4);
        assert(rest.subrange(0, k - 4) =~= c.subrange(4, k as int));
        assert(rest.subrange(k as int, rest.len() as int) =~= c.subrange(k + 4, c.len() as int));
    }
    let block = content.substring_char(4, k);
    let body = content.substring_char(k + 4, n);
    match metadata_of(block) {
        Ok(metadata) => Ok((metadata, body)),
        Err(e) => Err(e),
    }
}

} // verus!
