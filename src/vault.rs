//! The vault: every retained note and asset under its canonical path, and
//! the link graph between the notes.
use vstd::prelude::*;
use crate::graph::{
    add_edge, add_node, edge_paths, empty_graph, graph_edges, graph_nodes, node_path, successors,
    targets_from, update_edge, Node, PathGraph,
};
use crate::note::{link_views, Note};
use crate::path::{path_of_text, ItemPath, PathModel};
use crate::text::same_text;
use crate::wikilink::LinkModel;

verus! {

/// What resolution promises: a bare file name leads to a path whose last
/// segment is that name whenever the index has one, an absolute path
/// leads to exactly that path whenever the index has it, and a reference
/// that no path answers leads nowhere.
pub proof fn lemma_resolution(keys: Seq<PathModel>, target: Seq<char>)
    ensures
        resolve_index(keys, target) == -1 || (0 <= resolve_index(keys, target) < keys.len()
            && matches_target(keys[resolve_index(keys, target)], path_of_text(target))),
        (exists|i: int| 0 <= i < keys.len() && matches_target(keys[i], path_of_text(target)))
            ==> resolve_index(keys, target) >= 0,
        path_of_text(target) is Absolute ==> (resolve_index(keys, target) >= 0 <==> keys.contains(path_of_text(target))),
        path_of_text(target) is Absolute && resolve_index(keys, target) >= 0
            ==> keys[resolve_index(keys, target)] == path_of_text(target),
        (forall|i: int| 0 <= i < keys.len() ==> !matches_target(keys[i], path_of_text(target)))
            ==> resolve_index(keys, target) == -1,
{
    lemma_first_match(keys, path_of_text(target), 0);
    if path_of_text(target) is Absolute && keys.contains(path_of_text(target)) {
        let i = choose|i: int| 0 <= i < keys.len() && keys[i] == path_of_text(target);
        assert(matches_target(keys[i], path_of_text(target)));
    }
}

/// Whether path `p` answers a reference read as `t`: an absolute reference
/// only the same path, a bare file name any absolute path whose last
/// segment is that name.
pub open spec fn matches_target(p: PathModel, t: PathModel) -> bool {
    match t {
        PathModel::Absolute(_) => p == t,
        PathModel::FileName(name) => match p {
            PathModel::Absolute(segs) => segs.len() > 0 && segs.last() == name,
            PathModel::FileName(_) => false,
        },
    }
}

/// The first index at or after `i` whose path answers `t`, or -1.
pub open spec fn first_match(keys: Seq<PathModel>, t: PathModel, i: int) -> int
    decreases keys.len() - i,
{
    if i < 0 || i >= keys.len() {
        -1
    } else if matches_target(keys[i], t) {
        i
    } else {
        first_match(keys, t, i + 1)
    }
}

/// Where a reference written `target` leads in an index with paths `keys`:
/// the first entry that answers it, or -1.
pub open spec fn resolve_index(keys: Seq<PathModel>, target: Seq<char>) -> int {
    first_match(keys, path_of_text(target), 0)
}

/// The paths of an index.
pub open spec fn keys_of<V>(entries: Seq<(ItemPath, V)>) -> Seq<PathModel> {
    entries.map_values(|e: (ItemPath, V)| e.0@)
}

/// No path occurs twice.
pub open spec fn unique_paths(keys: Seq<PathModel>) -> bool {
    forall|i: int, j: int| 0 <= i < j < keys.len() ==> keys[i] != keys[j]
}

proof fn lemma_first_match(keys: Seq<PathModel>, t: PathModel, i: int)
    requires
        0 <= i,
    ensures
        first_match(keys, t, i) == -1 || (i <= first_match(keys, t, i) < keys.len()
            && matches_target(keys[first_match(keys, t, i)], t)),
        first_match(keys, t, i) == -1 ==> forall|j: int| i <= j < keys.len() ==> !matches_target(keys[j], t),
        first_match(keys, t, i) >= 0 ==> forall|j: int| i <= j < first_match(keys, t, i) ==> !matches_target(keys[j], t),
    decreases keys.len() - i,
{
    if i < keys.len() && !matches_target(keys[i], t) {
        lemma_first_match(keys, t, i + 1);
    }
}

fn matches_exec(p: &ItemPath, t: &ItemPath) -> (r: bool)
    ensures
        r == matches_target(p@, t@),
{
    match t {
        ItemPath::Absolute(_) => p.eq(t),
        ItemPath::FileName(name) => match p {
            ItemPath::Absolute(segs) => {
                if segs.len() == 0 {
                    false
                } else {
                    same_text(segs[segs.len() - 1].as_str(), name.as_str())
                }
            },
            ItemPath::FileName(_) => false,
        },
    }
}

/// Resolves the reference `target` in an index: the entry that
/// [`resolve_index`] picks, with the path it is filed under, or nothing.
pub fn resolve_link<'a, V>(paths: &'a Vec<(ItemPath, V)>, target: &str) -> (r: Option<(ItemPath, &'a V)>)
    ensures
        resolve_index(keys_of(paths@), target@) < 0 ==> r is None,
        resolve_index(keys_of(paths@), target@) >= 0 ==> r is Some
            && r->Some_0.0@ == keys_of(paths@)[resolve_index(keys_of(paths@), target@)]
            && *r->Some_0.1 == paths@[resolve_index(keys_of(paths@), target@)].1,
{
    let t = ItemPath::from_text(target.to_owned());
    let ghost keys = keys_of(paths@);
    proof {
        lemma_first_match(keys, t@, 0);
    }
    let mut i: usize = 0;
    while i < paths.len()
        invariant
            i <= paths@.len(),
            keys == keys_of(paths@),
            t@ == path_of_text(target@),
            first_match(keys, t@, 0) == first_match(keys, t@, i as int),
        decreases paths@.len() - i,
    {
        if matches_exec(&paths[i].0, &t) {
            return Some((paths[i].0.duplicate(), &paths[i].1));
        }
        i = i + 1;
    }
    None
}

/// A note in a vault, with its node in the link graph.
pub struct NoteItem {
    pub note: Note,
    index: Node,
}

/// A file that notes can embed, with where it lies on disk.
#[derive(Debug, Clone, PartialEq, Eq)]
pub enum EmbeddedFile {
    Image(String),
    Audio(String),
    Video(String),
    Pdf(String),
}

/// The notes of a corpus under their paths, the assets under theirs, and
/// the directed graph of links between the notes.
pub struct Vault {
    notes: Vec<(ItemPath, NoteItem)>,
    graph: PathGraph,
    root: String,
    files: Vec<(ItemPath, EmbeddedFile)>,
}

/// Each note's path with the links of its body.
pub open spec fn note_links(notes: Seq<(ItemPath, Note)>) -> Seq<(PathModel, Seq<LinkModel>)> {
    notes.map_values(|e: (ItemPath, Note)| (e.0@, link_views(e.1.links@)))
}

/// Whether hyperlink `j` of note `i` leads to the note at `q`.
pub open spec fn link_leads(entries: Seq<(PathModel, Seq<LinkModel>)>, i: int, j: int, q: PathModel) -> bool {
    let keys = entries.map_values(|e: (PathModel, Seq<LinkModel>)| e.0);
    let l = entries[i].1[j];
    &&& 0 <= i < entries.len()
    &&& 0 <= j < entries[i].1.len()
    &&& !l.embedded
    &&& resolve_index(keys, l.target) >= 0
    &&& keys[resolve_index(keys, l.target)] == q
}

/// A hyperlink whose target resolves to no note of the vault leads
/// nowhere, so it gives no edge.
pub proof fn lemma_unresolved_link_no_edge(entries: Seq<(PathModel, Seq<LinkModel>)>, i: int, j: int)
    requires
        0 <= i < entries.len(),
        0 <= j < entries[i].1.len(),
        resolve_index(entries.map_values(|e: (PathModel, Seq<LinkModel>)| e.0), entries[i].1[j].target) < 0,
    ensures
        forall|q: PathModel| !link_leads(entries, i, j, q),
{
}

/// The edges of the link graph: one from `p` to `q` for each hyperlink of
/// the note at `p` that resolves to the note at `q`. Embedded links and
/// links that resolve to nothing give no edge.
pub open spec fn link_edges(entries: Seq<(PathModel, Seq<LinkModel>)>) -> Set<(PathModel, PathModel)> {
    Set::new(|e: (PathModel, PathModel)| exists|i: int, j: int| #[trigger] link_leads(entries, i, j, e.1) && entries[i].0 == e.0)
}

/// [`link_edges`] of the notes before `i`, and of the first `j` links of
/// note `i`.
pub open spec fn link_edges_upto(entries: Seq<(PathModel, Seq<LinkModel>)>, i: int, j: int) -> Set<(PathModel, PathModel)> {
    Set::new(|e: (PathModel, PathModel)| exists|a: int, b: int| #[trigger] link_leads(entries, a, b, e.1) && entries[a].0 == e.0
        && (a < i || (a == i && b < j)))
}

impl Vault {
    /// The vault's notes with their paths, no path twice.
    pub closed spec fn note_entries(&self) -> Seq<(ItemPath, Note)> {
        self.notes@.map_values(|e: (ItemPath, NoteItem)| (e.0, e.1.note))
    }

    /// The paths of the vault's notes.
    pub open spec fn note_paths(&self) -> Seq<PathModel> {
        keys_of(self.note_entries())
    }

    /// The vault's assets with their paths.
    pub closed spec fn file_entries(&self) -> Seq<(ItemPath, EmbeddedFile)> {
        self.files@
    }

    /// The edges of the link graph, as pairs of note paths.
    pub closed spec fn edges(&self) -> Set<(PathModel, PathModel)> {
        edge_paths(self.graph)
    }

    /// The graph node of the note at `p`.
    closed spec fn node_of(&self, p: PathModel) -> Node {
        self.notes@[keys_of(self.notes@).index_of(p)].1.index
    }

    /// The paths that the link graph leads to from the note at `p`, one
    /// for each edge, newest edge first.
    pub closed spec fn successor_paths(&self, p: PathModel) -> Seq<PathModel> {
        targets_from(graph_edges(self.graph), self.node_of(p)).map_values(|n: Node| graph_nodes(self.graph)[n])
    }

    /// Well-formedness: paths are unique, each note has its own node
    /// carrying its path, every node belongs to a note, and every edge
    /// joins two nodes.
    #[verifier::type_invariant]
    spec fn wf(self) -> bool {
        let nodes = graph_nodes(self.graph);
        &&& unique_paths(keys_of(self.notes@))
        &&& forall|i: int| 0 <= i < self.notes@.len() ==> nodes.contains_key(#[trigger] self.notes@[i].1.index)
            && nodes[self.notes@[i].1.index] == self.notes@[i].0@
        &&& forall|n: Node| #[trigger] nodes.contains_key(n) ==> exists|i: int| 0 <= i < self.notes@.len()
            && self.notes@[i].1.index == n
        &&& edges_within(self.graph)
    }
}


/// Every edge of `g` joins two of its nodes.
pub open spec fn edges_within(g: PathGraph) -> bool {
    forall|k: int| 0 <= k < graph_edges(g).len() ==> graph_nodes(g).contains_key(#[trigger] graph_edges(g)[k].0)
        && graph_nodes(g).contains_key(graph_edges(g)[k].1)
}

proof fn lemma_edges_within_push(g0: PathGraph, g1: PathGraph, a: Node, b: Node)
    requires
        edges_within(g0),
        graph_nodes(g0).contains_key(a),
        graph_nodes(g0).contains_key(b),
        graph_nodes(g1) == graph_nodes(g0),
        graph_edges(g1) == graph_edges(g0).push((a, b)),
    ensures
        edges_within(g1),
{
    assert forall|k: int| 0 <= k < graph_edges(g1).len() implies graph_nodes(g1).contains_key(#[trigger] graph_edges(g1)[k].0)
        && graph_nodes(g1).contains_key(graph_edges(g1)[k].1) by {
        if k < graph_edges(g0).len() {
            assert(graph_edges(g1)[k] == graph_edges(g0)[k]);
        }
    }
}

proof fn lemma_edge_paths_push(g0: PathGraph, g1: PathGraph, a: Node, b: Node)
    requires
        graph_nodes(g1) == graph_nodes(g0),
        graph_edges(g1) == graph_edges(g0).push((a, b)),
    ensures
        edge_paths(g1) == edge_paths(g0).insert((graph_nodes(g0)[a], graph_nodes(g0)[b])),
{
    let e0 = graph_edges(g0);
    let e1 = graph_edges(g1);
    let nodes = graph_nodes(g0);
    assert forall|e: (PathModel, PathModel)| edge_paths(g1).contains(e) implies
        edge_paths(g0).insert((nodes[a], nodes[b])).contains(e) by {
        let i = choose|i: int| 0 <= i < e1.len() && nodes[#[trigger] e1[i].0] == e.0 && nodes[e1[i].1] == e.1;
        if i < e0.len() {
            assert(e1[i] == e0[i]);
            assert(edge_paths(g0).contains(e));
        }
    }
    assert forall|e: (PathModel, PathModel)| edge_paths(g0).insert((nodes[a], nodes[b])).contains(e) implies
        edge_paths(g1).contains(e) by {
        if e == (nodes[a], nodes[b]) {
            assert(e1[e0.len() as int] == (a, b));
            assert(nodes[e1[e0.len() as int].0] == e.0 && nodes[e1[e0.len() as int].1] == e.1);
        } else {
            let i = choose|i: int| 0 <= i < e0.len() && nodes[#[trigger] e0[i].0] == e.0 && nodes[e0[i].1] == e.1;
            assert(e1[i] == e0[i]);
        }
    }
    assert(edge_paths(g1) =~= edge_paths(g0).insert((nodes[a], nodes[b])));
}

proof fn lemma_upto_step(entries: Seq<(PathModel, Seq<LinkModel>)>, i: int, j: int, q: PathModel)
    requires
        0 <= i < entries.len(),
        0 <= j < entries[i].1.len(),
    ensures
        link_leads(entries, i, j, q) ==> link_edges_upto(entries, i, j + 1) == link_edges_upto(entries, i, j).insert((entries[i].0, q)),
        (forall|q2: PathModel| !link_leads(entries, i, j, q2)) ==> link_edges_upto(entries, i, j + 1) == link_edges_upto(entries, i, j),
{
    if link_leads(entries, i, j, q) {
        assert forall|e: (PathModel, PathModel)| link_edges_upto(entries, i, j + 1).contains(e) implies
            link_edges_upto(entries, i, j).insert((entries[i].0, q)).contains(e) by {
            let (a, b) = choose|a: int, b: int| #[trigger] link_leads(entries, a, b, e.1) && entries[a].0 == e.0
                && (a < i || (a == i && b < j + 1));
            if a == i && b == j {
                assert(e.1 == q);
            } else {
                assert(link_edges_upto(entries, i, j).contains(e));
            }
        }
        assert forall|e: (PathModel, PathModel)| link_edges_upto(entries, i, j).insert((entries[i].0, q)).contains(e) implies
            link_edges_upto(entries, i, j + 1).contains(e) by {
            if e == (entries[i].0, q) {
                assert(link_leads(entries, i, j, e.1));
            } else {
                let (a, b) = choose|a: int, b: int| #[trigger] link_leads(entries, a, b, e.1) && entries[a].0 == e.0
                    && (a < i || (a == i && b < j));
                assert(link_leads(entries, a, b, e.1));
            }
        }
        assert(link_edges_upto(entries, i, j + 1) =~= link_edges_upto(entries, i, j).insert((entries[i].0, q)));
    }
    if forall|q2: PathModel| !link_leads(entries, i, j, q2) {
        assert forall|e: (PathModel, PathModel)| link_edges_upto(entries, i, j + 1).contains(e) implies
            link_edges_upto(entries, i, j).contains(e) by {
            let (a, b) = choose|a: int, b: int| #[trigger] link_leads(entries, a, b, e.1) && entries[a].0 == e.0
                && (a < i || (a == i && b < j + 1));
            assert(!(a == i && b == j));
        }
        assert(link_edges_upto(entries, i, j + 1) =~= link_edges_upto(entries, i, j));
    }
}

proof fn lemma_upto_row(entries: Seq<(PathModel, Seq<LinkModel>)>, i: int)
    requires
        0 <= i < entries.len(),
    ensures
        link_edges_upto(entries, i, entries[i].1.len() as int) == link_edges_upto(entries, i + 1, 0),
{
    assert forall|e: (PathModel, PathModel)| link_edges_upto(entries, i + 1, 0).contains(e) implies
        link_edges_upto(entries, i, entries[i].1.len() as int).contains(e) by {
        let (a, b) = choose|a: int, b: int| #[trigger] link_leads(entries, a, b, e.1) && entries[a].0 == e.0
            && (a < i + 1 || (a == i + 1 && b < 0));
        assert(link_leads(entries, a, b, e.1));
    }
    assert(link_edges_upto(entries, i, entries[i].1.len() as int) =~= link_edges_upto(entries, i + 1, 0));
}

proof fn lemma_upto_ends(entries: Seq<(PathModel, Seq<LinkModel>)>)
    ensures
        link_edges_upto(entries, 0, 0) == Set::<(PathModel, PathModel)>::empty(),
        link_edges_upto(entries, entries.len() as int, 0) == link_edges(entries),
{
    assert forall|e: (PathModel, PathModel)| link_edges(entries).contains(e) implies
        link_edges_upto(entries, entries.len() as int, 0).contains(e) by {
        let (a, b) = choose|a: int, b: int| #[trigger] link_leads(entries, a, b, e.1) && entries[a].0 == e.0;
        assert(link_leads(entries, a, b, e.1));
    }
    assert(link_edges_upto(entries, 0, 0) =~= Set::<(PathModel, PathModel)>::empty());
    assert(link_edges_upto(entries, entries.len() as int, 0) =~= link_edges(entries));
}

impl Vault {
    /// Builds a vault from its notes and its assets, in that order: one
    /// graph node per note, and one edge for each hyperlink of a note that
    /// resolves (see [`resolve_link`]) to a note of the vault.
    pub fn assemble(root: String, notes: Vec<(ItemPath, Note)>, files: Vec<(ItemPath, EmbeddedFile)>) -> (r: Vault)
        requires
            unique_paths(keys_of(notes@)),
        ensures
            r.root_text() == root@,
            forall|e: (PathModel, PathModel)| #[trigger] r.edges().contains(e)
                ==> r.note_paths().contains(e.0) && r.note_paths().contains(e.1),
            r.note_entries() == notes@,
            r.file_entries() == files@,
            r.edges() == link_edges(note_links(notes@)),
    {
        let ghost all = notes@;
        let mut graph = empty_graph();
        assert(graph_nodes(graph) =~= Map::<Node, PathModel>::empty());
        let mut items: Vec<(ItemPath, NoteItem)> = Vec::new();
        let mut rest = notes;
        while rest.len() > 0
            invariant
                rest@.len() <= all.len(),
                items@.len() + rest@.len() == all.len(),
                rest@ == all.subrange(items@.len() as int, all.len() as int),
                items@.map_values(|e: (ItemPath, NoteItem)| (e.0, e.1.note)) == all.subrange(0, items@.len() as int),
                forall|i: int| 0 <= i < items@.len() ==> graph_nodes(graph).contains_key(#[trigger] items@[i].1.index)
                    && graph_nodes(graph)[items@[i].1.index] == items@[i].0@,
                forall|n: Node| #[trigger] graph_nodes(graph).contains_key(n) ==> exists|i: int| 0 <= i < items@.len()
                    && items@[i].1.index == n,
                graph_edges(graph).len() == 0,
            decreases rest@.len(),
        {
            let ghost k = items@.len() as int;
            let (path, note) = rest.remove(0);
            assert(rest@ =~= all.subrange(k + 1, all.len() as int));
            let ghost g_old = graph;
            let ghost items_old = items@;
            let index = add_node(&mut graph, path.duplicate());
            items.push((path, NoteItem { note, index }));
            assert(forall|i: int| 0 <= i < items_old.len() ==> items@[i] == items_old[i]);
            assert(items@.map_values(|e: (ItemPath, NoteItem)| (e.0, e.1.note)) =~= all.subrange(0, items@.len() as int));
            assert forall|n: Node| #[trigger] graph_nodes(graph).contains_key(n) implies exists|i: int| 0 <= i < items@.len()
                && items@[i].1.index == n by {
                if n != index {
                    assert(graph_nodes(g_old).contains_key(n));
                    let i = choose|i: int| 0 <= i < items_old.len() && items_old[i].1.index == n;
                    assert(items@[i].1.index == n);
                } else {
                    assert(items@[k as int].1.index == n);
                }
            }
        }
        assert(all.subrange(0, all.len() as int) == all);
        let ghost entries = note_links(all);
        let ghost keys = entries.map_values(|e: (PathModel, Seq<LinkModel>)| e.0);
        assert(keys =~= keys_of(items@));
        proof {
            lemma_upto_ends(entries);
        }
        let mut i: usize = 0;
        while i < items.len()
            invariant
                i <= items@.len(),
                items@.len() == all.len(),
                entries == note_links(all),
                keys == entries.map_values(|e: (PathModel, Seq<LinkModel>)| e.0),
                keys == keys_of(items@),
                items@.map_values(|e: (ItemPath, NoteItem)| (e.0, e.1.note)) == all,
                forall|i: int| 0 <= i < items@.len() ==> graph_nodes(graph).contains_key(#[trigger] items@[i].1.index)
                    && graph_nodes(graph)[items@[i].1.index] == items@[i].0@,
                forall|n: Node| #[trigger] graph_nodes(graph).contains_key(n) ==> exists|i: int| 0 <= i < items@.len()
                    && items@[i].1.index == n,
                edges_within(graph),
                edge_paths(graph) == link_edges_upto(entries, i as int, 0),
            decreases items@.len() - i,
        {
            assert(items@[i as int].1.note == all[i as int].1);
            let mut j: usize = 0;
            while j < items[i].1.note.links.len()
                invariant
                    i < items@.len(),
                    j <= items@[i as int].1.note.links@.len(),
                    items@.len() == all.len(),
                    entries == note_links(all),
                    keys == entries.map_values(|e: (PathModel, Seq<LinkModel>)| e.0),
                    keys == keys_of(items@),
                    items@.map_values(|e: (ItemPath, NoteItem)| (e.0, e.1.note)) == all,
                    forall|i: int| 0 <= i < items@.len() ==> graph_nodes(graph).contains_key(#[trigger] items@[i].1.index)
                        && graph_nodes(graph)[items@[i].1.index] == items@[i].0@,
                    forall|n: Node| #[trigger] graph_nodes(graph).contains_key(n) ==> exists|i: int| 0 <= i < items@.len()
                        && items@[i].1.index == n,
                    edges_within(graph),
                    edge_paths(graph) == link_edges_upto(entries, i as int, j as int),
                decreases items@[i as int].1.note.links@.len() - j,
            {
                let ghost g0 = graph;
                let ghost row = all[i as int].1;
                assert(items@.map_values(|e: (ItemPath, NoteItem)| (e.0, e.1.note))[i as int] == all[i as int]);
                assert(entries[i as int].1 == link_views(row.links@));
                assert(entries[i as int].1[j as int] == items@[i as int].1.note.links@[j as int]@);
                assert(entries[i as int].0 == items@[i as int].0@);
                let link = &items[i].1.note.links[j];
                if !link.embedded {
                    match resolve_link(&items, link.target.as_str()) {
                        Some((_, target)) => {
                            let ghost t = resolve_index(keys, link.target@);
                            proof {
                                lemma_first_match(keys, path_of_text(link.target@), 0);
                            }
                            assert(t >= 0);
                            let ghost q = keys[t];
                            assert(graph_nodes(graph).contains_key(items@[t].1.index));
                            assert(graph_nodes(graph).contains_key(items@[i as int].1.index));
                            add_edge(&mut graph, items[i].1.index, target.index);
                            proof {
                                lemma_edge_paths_push(g0, graph, items@[i as int].1.index, target.index);
                                lemma_upto_step(entries, i as int, j as int, q);
                                assert(link_leads(entries, i as int, j as int, q));
                                assert(graph_nodes(graph)[items@[t].1.index] == q);
                                lemma_edges_within_push(g0, graph, items@[i as int].1.index, items@[t].1.index);
                            }
                        },
                        None => {
                            proof {
                                lemma_upto_step(entries, i as int, j as int, keys[0]);
                            }
                        },
                    }
                } else {
                    proof {
                        lemma_upto_step(entries, i as int, j as int, keys[0]);
                    }
                }
                j = j + 1;
            }
            proof {
                lemma_upto_row(entries, i as int);
            }
            i = i + 1;
        }
        assert(keys =~= keys_of(all));
        let r = Vault { notes: items, graph, root, files };
        proof {
            use_type_invariant(&r);
            assert forall|e: (PathModel, PathModel)| #[trigger] r.edges().contains(e)
                implies r.note_paths().contains(e.0) && r.note_paths().contains(e.1) by {
                r.lemma_edges_join_notes(e);
            }
        }
        r
    }
}


/// How many expansions a walk at `depth` still has.
pub open spec fn walk_budget(depth: nat, max_depth: nat) -> nat {
    if depth <= max_depth {
        (max_depth + 1 - depth) as nat
    } else {
        0
    }
}

/// The bounded breadth-first walk of a local graph. `queue` holds the paths
/// still to visit, `seen` those expanded so far, `depth` the number of
/// expansions made. The walk stops when the queue is empty or `depth`
/// exceeds `max_depth`; each dequeued path not yet seen is expanded: it and
/// all its successors (`succ`) join the nodes, an edge from it to each
/// successor joins the edges, the successors join the back of the queue,
/// and `depth` goes up by one. The budget thus counts expansions, not
/// layers of the walk.
pub open spec fn walk(
    succ: spec_fn(PathModel) -> Seq<PathModel>,
    queue: Seq<PathModel>,
    seen: Set<PathModel>,
    depth: nat,
    max_depth: nat,
    nodes: Set<PathModel>,
    edges: Set<(PathModel, PathModel)>,
) -> (Set<PathModel>, Set<(PathModel, PathModel)>)
    decreases walk_budget(depth, max_depth), queue.len(),
{
    if depth > max_depth || queue.len() == 0 {
        (nodes, edges)
    } else {
        let p = queue[0];
        if seen.contains(p) {
            walk(succ, queue.drop_first(), seen, depth, max_depth, nodes, edges)
        } else {
            let s = succ(p);
            walk(
                succ,
                queue.drop_first() + s,
                seen.insert(p),
                depth + 1,
                max_depth,
                nodes.insert(p) + s.to_set(),
                edges + out_edges(p, s),
            )
        }
    }
}

/// An edge from `p` to each path of `s`.
pub open spec fn out_edges(p: PathModel, s: Seq<PathModel>) -> Set<(PathModel, PathModel)> {
    Set::new(|e: (PathModel, PathModel)| e.0 == p && s.contains(e.1))
}

/// The nodes and edges of the local graph around `focal` (see [`walk`]).
pub open spec fn local_walk(
    succ: spec_fn(PathModel) -> Seq<PathModel>,
    focal: PathModel,
    max_depth: nat,
) -> (Set<PathModel>, Set<(PathModel, PathModel)>) {
    walk(succ, seq![focal], Set::<PathModel>::empty(), 0, max_depth, Set::<PathModel>::empty(), Set::<(PathModel, PathModel)>::empty())
}

/// The handles that `index` lists are exactly the nodes of `g`, each
/// carrying the path listed with it, and no path is listed twice.
pub open spec fn index_ok(g: PathGraph, index: Seq<(ItemPath, Node)>) -> bool {
    &&& forall|i: int| 0 <= i < index.len() ==> graph_nodes(g).contains_key(#[trigger] index[i].1)
        && graph_nodes(g)[index[i].1] == index[i].0@
    &&& forall|n: Node| #[trigger] graph_nodes(g).contains_key(n) ==> exists|i: int| 0 <= i < index.len() && index[i].1 == n
    &&& unique_paths(keys_of(index))
}

proof fn lemma_values_insert(m: Map<Node, PathModel>, n: Node, p: PathModel)
    requires
        !m.contains_key(n),
    ensures
        m.insert(n, p).values() == m.values().insert(p),
{
    assert forall|x: PathModel| m.insert(n, p).values().contains(x) implies m.values().insert(p).contains(x) by {
        let k = choose|k: Node| m.insert(n, p).contains_key(k) && m.insert(n, p)[k] == x;
        if k != n {
            assert(m.contains_key(k) && m[k] == x);
        }
    }
    assert forall|x: PathModel| m.values().insert(p).contains(x) implies m.insert(n, p).values().contains(x) by {
        if x == p {
            assert(m.insert(n, p).contains_key(n) && m.insert(n, p)[n] == x);
        } else {
            let k = choose|k: Node| m.contains_key(k) && m[k] == x;
            assert(m.insert(n, p).contains_key(k) && m.insert(n, p)[k] == x);
        }
    }
    assert(m.insert(n, p).values() =~= m.values().insert(p));
}

/// The node of `index` that carries `p`, made if there is none.
fn node_for(g: &mut PathGraph, index: &mut Vec<(ItemPath, Node)>, p: &ItemPath) -> (r: Node)
    requires
        index_ok(*old(g), old(index)@),
    ensures
        index_ok(*final(g), final(index)@),
        graph_nodes(*final(g)).contains_key(r),
        graph_nodes(*final(g))[r] == p@,
        graph_nodes(*final(g)).values() == graph_nodes(*old(g)).values().insert(p@),
        graph_edges(*final(g)) == graph_edges(*old(g)),
        forall|n: Node| graph_nodes(*old(g)).contains_key(n) ==> graph_nodes(*final(g)).contains_key(n)
            && graph_nodes(*final(g))[n] == graph_nodes(*old(g))[n],
{
    let mut i: usize = 0;
    while i < index.len()
        invariant
            i <= index@.len(),
            index@ == old(index)@,
            *g == *old(g),
            index_ok(*g, index@),
            forall|j: int| 0 <= j < i ==> index@[j].0@ != p@,
        decreases index@.len() - i,
    {
        if index[i].0.eq(p) {
            let n = index[i].1;
            assert(graph_nodes(*g).contains_key(index@[i as int].1));
            assert(graph_nodes(*g).contains_key(n) && graph_nodes(*g)[n] == p@);
            assert(graph_nodes(*g).values().contains(p@));
            assert(graph_nodes(*g).values().insert(p@) =~= graph_nodes(*g).values());
            return n;
        }
        i = i + 1;
    }
    let ghost g0 = *g;
    let ghost idx0 = index@;
    let n = add_node(g, p.duplicate());
    index.push((p.duplicate(), n));
    proof {
        lemma_values_insert(graph_nodes(g0), n, p@);
        assert forall|k: Node| #[trigger] graph_nodes(*g).contains_key(k) implies exists|i: int| 0 <= i < index@.len()
            && index@[i].1 == k by {
            if k != n {
                let i = choose|i: int| 0 <= i < idx0.len() && idx0[i].1 == k;
                assert(index@[i] == idx0[i]);
            } else {
                assert(index@[idx0.len() as int].1 == k);
            }
        }
        assert forall|i: int| 0 <= i < index@.len() implies graph_nodes(*g).contains_key(#[trigger] index@[i].1)
            && graph_nodes(*g)[index@[i].1] == index@[i].0@ by {
            if i < idx0.len() {
                assert(index@[i] == idx0[i]);
            }
        }
        assert(keys_of(index@) =~= keys_of(idx0).push(p@));
    }
    n
}

proof fn lemma_update_edge_paths(g0: PathGraph, g1: PathGraph, a: Node, b: Node)
    requires
        graph_nodes(g1) == graph_nodes(g0),
        graph_edges(g1) == if graph_edges(g0).contains((a, b)) {
            graph_edges(g0)
        } else {
            graph_edges(g0).push((a, b))
        },
    ensures
        edge_paths(g1) == edge_paths(g0).insert((graph_nodes(g0)[a], graph_nodes(g0)[b])),
{
    if graph_edges(g0).contains((a, b)) {
        let k = choose|k: int| 0 <= k < graph_edges(g0).len() && graph_edges(g0)[k] == (a, b);
        assert(graph_nodes(g0)[graph_edges(g0)[k].0] == graph_nodes(g0)[a]);
        assert(edge_paths(g0).contains((graph_nodes(g0)[a], graph_nodes(g0)[b])));
        assert(edge_paths(g1) =~= edge_paths(g0).insert((graph_nodes(g0)[a], graph_nodes(g0)[b])));
    } else {
        lemma_edge_paths_push(g0, g1, a, b);
    }
}

proof fn lemma_targets_are_edges(edges: Seq<(Node, Node)>, a: Node, x: Node)
    requires
        targets_from(edges, a).contains(x),
    ensures
        exists|k: int| 0 <= k < edges.len() && #[trigger] edges[k] == (a, x),
    decreases edges.len(),
{
    let rest = targets_from(edges.drop_last(), a);
    if edges.last().0 == a && x == edges.last().1 {
        assert(edges[edges.len() - 1] == (a, x));
    } else {
        if edges.last().0 == a {
            let i = choose|i: int| 0 <= i < targets_from(edges, a).len() && targets_from(edges, a)[i] == x;
            assert(i > 0);
            assert(rest[i - 1] == x);
        }
        assert(rest.contains(x));
        lemma_targets_are_edges(edges.drop_last(), a, x);
        let k = choose|k: int| 0 <= k < edges.drop_last().len() && #[trigger] edges.drop_last()[k] == (a, x);
        assert(edges[k] == (a, x));
    }
}

/// No paths.
pub open spec fn no_paths() -> Seq<PathModel> {
    Seq::<PathModel>::empty()
}

/// The paths in a queue from position `head` on.
pub open spec fn queue_view(q: Seq<ItemPath>, head: int) -> Seq<PathModel> {
    q.subrange(head, q.len() as int).map_values(|x: ItemPath| x@)
}

/// The paths of a list, as a set.
pub open spec fn path_set(v: Seq<ItemPath>) -> Set<PathModel> {
    v.map_values(|x: ItemPath| x@).to_set()
}

fn contains_path(v: &Vec<ItemPath>, p: &ItemPath) -> (r: bool)
    ensures
        r == path_set(v@).contains(p@),
{
    let mut i: usize = 0;
    while i < v.len()
        invariant
            i <= v@.len(),
            forall|j: int| 0 <= j < i ==> v@[j]@ != p@,
        decreases v@.len() - i,
    {
        if v[i].eq(p) {
            assert(v@.map_values(|x: ItemPath| x@)[i as int] == p@);
            return true;
        }
        i = i + 1;
    }
    assert forall|x: PathModel| path_set(v@).contains(x) implies x != p@ by {
        let vs = v@.map_values(|x: ItemPath| x@);
        let k = choose|k: int| 0 <= k < vs.len() && #[trigger] vs[k] == x;
        assert(v@[k]@ == x);
    }
    false
}

proof fn lemma_edge_paths_stable(g0: PathGraph, g1: PathGraph)
    requires
        edges_within(g0),
        graph_edges(g1) == graph_edges(g0),
        forall|n: Node| #[trigger] graph_nodes(g0).contains_key(n) ==> graph_nodes(g1).contains_key(n)
            && graph_nodes(g1)[n] == graph_nodes(g0)[n],
    ensures
        edges_within(g1),
        edge_paths(g1) == edge_paths(g0),
{
    let e = graph_edges(g0);
    assert forall|k: int| 0 <= k < graph_edges(g1).len() implies graph_nodes(g1).contains_key(#[trigger] graph_edges(g1)[k].0)
        && graph_nodes(g1).contains_key(graph_edges(g1)[k].1) by {
        assert(graph_edges(g1)[k] == graph_edges(g0)[k]);
        assert(graph_nodes(g0).contains_key(graph_edges(g0)[k].0));
        assert(graph_nodes(g0).contains_key(graph_edges(g0)[k].1));
    }
    assert forall|x: (PathModel, PathModel)| edge_paths(g1).contains(x) implies edge_paths(g0).contains(x) by {
        let i = choose|i: int| 0 <= i < e.len() && graph_nodes(g1)[#[trigger] e[i].0] == x.0 && graph_nodes(g1)[e[i].1] == x.1;
        assert(graph_nodes(g0).contains_key(e[i].0));
    }
    assert forall|x: (PathModel, PathModel)| edge_paths(g0).contains(x) implies edge_paths(g1).contains(x) by {
        let i = choose|i: int| 0 <= i < e.len() && graph_nodes(g0)[#[trigger] e[i].0] == x.0 && graph_nodes(g0)[e[i].1] == x.1;
        assert(graph_nodes(g0).contains_key(e[i].0));
    }
    assert(edge_paths(g1) =~= edge_paths(g0));
}

proof fn lemma_path_set_push(v: Seq<ItemPath>, x: ItemPath)
    ensures
        path_set(v.push(x)) == path_set(v).insert(x@),
{
    let f = |y: ItemPath| y@;
    assert(v.push(x).map_values(f) =~= v.map_values(f).push(x@));
    assert forall|y: PathModel| path_set(v.push(x)).contains(y) implies path_set(v).insert(x@).contains(y) by {
        let vs = v.push(x).map_values(f);
        let k = choose|k: int| 0 <= k < vs.len() && #[trigger] vs[k] == y;
        if k < v.len() {
            assert(v.map_values(f)[k] == y);
        }
    }
    assert forall|y: PathModel| path_set(v).insert(x@).contains(y) implies path_set(v.push(x)).contains(y) by {
        let vs = v.push(x).map_values(f);
        if y == x@ {
            assert(vs[v.len() as int] == y);
        } else {
            let k = choose|k: int| 0 <= k < v.map_values(f).len() && #[trigger] v.map_values(f)[k] == y;
            assert(vs[k] == y);
        }
    }
    assert(path_set(v.push(x)) =~= path_set(v).insert(x@));
}

proof fn lemma_extend_nodes(a: Set<PathModel>, s: Seq<PathModel>, j: int)
    requires
        0 <= j < s.len(),
    ensures
        (a + s.subrange(0, j).to_set()).insert(s[j]) == a + s.subrange(0, j + 1).to_set(),
{
    assert forall|x: PathModel| (a + s.subrange(0, j + 1).to_set()).contains(x) implies
        (a + s.subrange(0, j).to_set()).insert(s[j]).contains(x) by {
        if !a.contains(x) && x != s[j] {
            let k = choose|k: int| 0 <= k < j + 1 && #[trigger] s.subrange(0, j + 1)[k] == x;
            assert(s.subrange(0, j)[k] == x);
        }
    }
    assert forall|x: PathModel| (a + s.subrange(0, j).to_set()).insert(s[j]).contains(x) implies
        (a + s.subrange(0, j + 1).to_set()).contains(x) by {
        if x == s[j] {
            assert(s.subrange(0, j + 1)[j] == x);
        } else if !a.contains(x) {
            let k = choose|k: int| 0 <= k < j && #[trigger] s.subrange(0, j)[k] == x;
            assert(s.subrange(0, j + 1)[k] == x);
        }
    }
    assert((a + s.subrange(0, j).to_set()).insert(s[j]) =~= a + s.subrange(0, j + 1).to_set());
}

proof fn lemma_extend_edges(e: Set<(PathModel, PathModel)>, p: PathModel, s: Seq<PathModel>, j: int)
    requires
        0 <= j < s.len(),
    ensures
        (e + out_edges(p, s.subrange(0, j))).insert((p, s[j])) == e + out_edges(p, s.subrange(0, j + 1)),
{
    assert forall|x: (PathModel, PathModel)| (e + out_edges(p, s.subrange(0, j + 1))).contains(x) implies
        (e + out_edges(p, s.subrange(0, j))).insert((p, s[j])).contains(x) by {
        if !e.contains(x) && x != (p, s[j]) {
            let k = choose|k: int| 0 <= k < j + 1 && #[trigger] s.subrange(0, j + 1)[k] == x.1;
            assert(s.subrange(0, j)[k] == x.1);
        }
    }
    assert forall|x: (PathModel, PathModel)| (e + out_edges(p, s.subrange(0, j))).insert((p, s[j])).contains(x) implies
        (e + out_edges(p, s.subrange(0, j + 1))).contains(x) by {
        if x == (p, s[j]) {
            assert(s.subrange(0, j + 1)[j] == x.1);
        } else if !e.contains(x) {
            let k = choose|k: int| 0 <= k < j && #[trigger] s.subrange(0, j)[k] == x.1;
            assert(s.subrange(0, j + 1)[k] == x.1);
        }
    }
    assert((e + out_edges(p, s.subrange(0, j))).insert((p, s[j])) =~= e + out_edges(p, s.subrange(0, j + 1)));
}

impl Vault {
    /// Every node of `g` carries the path of a note of the vault, and every
    /// edge of `g` is an edge of the vault's link graph.
    spec fn within_vault(&self, g: PathGraph) -> bool {
        &&& forall|q: PathModel| #[trigger] graph_nodes(g).values().contains(q) ==> keys_of(self.notes@).contains(q)
        &&& forall|e: (PathModel, PathModel)| #[trigger] edge_paths(g).contains(e) ==> edge_paths(self.graph).contains(e)
    }

    /// The successors of the vault's link graph, as a function of paths.
    pub open spec fn succ_fn(&self) -> spec_fn(PathModel) -> Seq<PathModel> {
        |p: PathModel| self.successor_paths(p)
    }

    /// The local graph around the note at `path`: the nodes and edges of
    /// the bounded breadth-first walk from it (see [`walk`]), or nothing
    /// if the vault has no note at `path`.
    pub fn local_graph(&self, path: &ItemPath, max_depth: usize) -> (r: Option<PathGraph>)
        ensures
            r is None <==> !self.note_paths().contains(path@),
            r is Some ==> graph_nodes(r->Some_0).values() == local_walk(self.succ_fn(), path@, max_depth as nat).0
                && edge_paths(r->Some_0) == local_walk(self.succ_fn(), path@, max_depth as nat).1,
            r is Some ==> graph_nodes(r->Some_0).values().contains(path@),
            r is Some ==> forall|q: PathModel| #[trigger] graph_nodes(r->Some_0).values().contains(q) ==> self.note_paths().contains(q),
            r is Some ==> forall|e: (PathModel, PathModel)| #[trigger] edge_paths(r->Some_0).contains(e) ==> self.edges().contains(e),
            r is Some ==> forall|a: Node, b: Node| #[trigger] graph_nodes(r->Some_0).contains_key(a)
                && #[trigger] graph_nodes(r->Some_0).contains_key(b) && graph_nodes(r->Some_0)[a] == graph_nodes(r->Some_0)[b]
                ==> a == b,
    {
        proof {
            use_type_invariant(self);
        }
        assert(self.note_paths() =~= keys_of(self.notes@));
        if self.find_note(path).is_none() {
            return None;
        }
        let ghost succ = self.succ_fn();
        let ghost goal = local_walk(succ, path@, max_depth as nat);
        let mut g = empty_graph();
        let mut index: Vec<(ItemPath, Node)> = Vec::new();
        let mut queue: Vec<ItemPath> = Vec::new();
        queue.push(path.duplicate());
        let mut seen: Vec<ItemPath> = Vec::new();
        let mut head: usize = 0;
        let mut depth: u128 = 0;
        proof {
            assert(graph_nodes(g).values() =~= Set::<PathModel>::empty());
            assert(edge_paths(g) =~= Set::<(PathModel, PathModel)>::empty());
            assert(queue_view(queue@, 0) =~= seq![path@]);
            assert(path_set(seen@) =~= Set::<PathModel>::empty());
            assert(keys_of(index@) =~= Seq::<PathModel>::empty());
        }
        while head < queue.len() && depth <= max_depth as u128
            invariant
                self.wf(),
                succ == self.succ_fn(),
                head <= queue@.len(),
                depth <= max_depth as u128 + 1,
                index_ok(g, index@),
                edges_within(g),
                walk(succ, queue_view(queue@, head as int), path_set(seen@), depth as nat, max_depth as nat,
                    graph_nodes(g).values(), edge_paths(g)) == goal,
                forall|k: int| head <= k < queue@.len() ==> keys_of(self.notes@).contains(#[trigger] queue@[k]@),
                self.within_vault(g),
                queue@.len() > 0,
                queue@[0]@ == path@,
                head == 0 ==> path_set(seen@) == Set::<PathModel>::empty(),
                head > 0 ==> graph_nodes(g).values().contains(path@),
                depth > 0 ==> head > 0,
            decreases walk_budget(depth as nat, max_depth as nat), queue@.len() - head,
        {
            let ghost q0 = queue_view(queue@, head as int);
            let ghost nodes0 = graph_nodes(g).values();
            let ghost edges0 = edge_paths(g);
            let ghost seen0 = path_set(seen@);
            let p = queue[head].duplicate();
            assert(q0[0] == p@);
            head = head + 1;
            assert(queue_view(queue@, head as int) =~= q0.drop_first());
            if contains_path(&seen, &p) {
                assert(walk(succ, q0, seen0, depth as nat, max_depth as nat, nodes0, edges0)
                    == walk(succ, q0.drop_first(), seen0, depth as nat, max_depth as nat, nodes0, edges0));
                continue;
            }
            let ghost seen_before = seen@;
            let d = p.duplicate();
            proof {
                lemma_path_set_push(seen_before, d);
            }
            seen.push(d);
            let ghost g_before = g;
            let o = node_for(&mut g, &mut index, &p);
            proof {
                lemma_edge_paths_stable(g_before, g);
                assert(keys_of(self.notes@).contains(p@));
                assert(self.within_vault(g));
                assert(out_edges(p@, no_paths()) =~= Set::<(PathModel, PathModel)>::empty());
                assert(edges0 + Set::<(PathModel, PathModel)>::empty() =~= edges0);
                assert(nodes0.insert(p@) + no_paths().to_set() =~= nodes0.insert(p@));
            }
            let ni = match self.find_note(&p) {
                Some(i) => self.notes[i].1.index,
                None => {
                    assert(keys_of(self.notes@).contains(queue@[head - 1]@));
                    return None;
                },
            };
            assert(ni == self.node_of(p@));
            assert(graph_nodes(self.graph)[ni] == p@);
            let succs = successors(&self.graph, ni);
            let ghost s = succ(p@);
            assert(s == self.successor_paths(p@));
            let mut j: usize = 0;
            while j < succs.len()
                invariant
                    self.wf(),
                    succ == self.succ_fn(),
                    s == succ(p@),
                    succs@ == targets_from(graph_edges(self.graph), ni),
                    s == succs@.map_values(|n: Node| graph_nodes(self.graph)[n]),
                    j <= succs@.len(),
                    head <= queue@.len(),
                    index_ok(g, index@),
                    edges_within(g),
                    q0.len() > 0,
                    graph_nodes(g).contains_key(o),
                    graph_nodes(g)[o] == p@,
                    graph_nodes(g).values() == nodes0.insert(p@) + s.subrange(0, j as int).to_set(),
                    edge_paths(g) == edges0 + out_edges(p@, s.subrange(0, j as int)),
                    queue_view(queue@, head as int) == q0.drop_first() + s.subrange(0, j as int),
                    forall|k: int| head <= k < queue@.len() ==> keys_of(self.notes@).contains(#[trigger] queue@[k]@),
                    self.within_vault(g),
                    graph_nodes(self.graph)[ni] == p@,
                    queue@.len() > 0,
                    queue@[0]@ == path@,
                    head > 0,
                    graph_nodes(g).values().contains(path@),
                decreases succs@.len() - j,
            {
                let n = succs[j];
                proof {
                    assert(targets_from(graph_edges(self.graph), ni)[j as int] == n);
                    lemma_targets_are_edges(graph_edges(self.graph), ni, n);
                    let k = choose|k: int| 0 <= k < graph_edges(self.graph).len() && #[trigger] graph_edges(self.graph)[k] == (ni, n);
                    assert(graph_nodes(self.graph).contains_key(graph_edges(self.graph)[k].0));
                    assert(graph_nodes(self.graph).contains_key(graph_edges(self.graph)[k].1));
                    assert(edge_paths(self.graph).contains((graph_nodes(self.graph)[ni], graph_nodes(self.graph)[n])));
                }
                let sp = node_path(&self.graph, n).duplicate();
                assert(sp@ == s[j as int]);
                proof {
                    let i = choose|i: int| 0 <= i < self.notes@.len() && self.notes@[i].1.index == n;
                    assert(keys_of(self.notes@)[i] == sp@);
                }
                let ghost qv = queue_view(queue@, head as int);
                queue.push(sp.duplicate());
                assert(queue_view(queue@, head as int) =~= qv.push(sp@));
                let ghost g0 = g;
                let t = node_for(&mut g, &mut index, &sp);
                let ghost g1 = g;
                proof {
                    lemma_edge_paths_stable(g0, g1);
                }
                update_edge(&mut g, o, t);
                proof {
                    lemma_update_edge_paths(g1, g, o, t);
                    assert(self.within_vault(g1));
                    assert(edge_paths(self.graph).contains((p@, sp@)));
                    assert(self.within_vault(g));
                    if graph_edges(g1).contains((o, t)) {
                        assert(edges_within(g));
                    } else {
                        lemma_edges_within_push(g1, g, o, t);
                    }
                    lemma_extend_nodes(nodes0.insert(p@), s, j as int);
                    lemma_extend_edges(edges0, p@, s, j as int);
                    assert(s.subrange(0, j + 1) =~= s.subrange(0, j as int).push(s[j as int]));
                    assert(q0.drop_first() + s.subrange(0, j + 1) =~= (q0.drop_first() + s.subrange(0, j as int)).push(s[j as int]));
                }
                j = j + 1;
            }
            assert(s.subrange(0, s.len() as int) == s);
            assert(walk(succ, q0, seen0, depth as nat, max_depth as nat, nodes0, edges0)
                == walk(succ, q0.drop_first() + s, seen0.insert(p@), (depth + 1) as nat, max_depth as nat,
                    nodes0.insert(p@) + s.to_set(), edges0 + out_edges(p@, s)));
            depth = depth + 1;
        }
        proof {
            assert(head > 0);
            assert(self.note_paths() =~= keys_of(self.notes@));
            assert forall|a: Node, b: Node| #[trigger] graph_nodes(g).contains_key(a)
                && #[trigger] graph_nodes(g).contains_key(b) && graph_nodes(g)[a] == graph_nodes(g)[b]
                implies a == b by {
                let i = choose|i: int| 0 <= i < index@.len() && index@[i].1 == a;
                let j = choose|j: int| 0 <= j < index@.len() && index@[j].1 == b;
                assert(keys_of(index@)[i] == keys_of(index@)[j]);
            }
        }
        Some(g)
    }

    /// Resolves the reference `target` among the vault's notes (see
    /// [`resolve_index`]): the path of the note it leads to, or nothing.
    pub fn resolve_link(&self, target: &str) -> (r: Option<ItemPath>)
        ensures
            r is None <==> resolve_index(self.note_paths(), target@) < 0,
            r is Some ==> r->Some_0@ == self.note_paths()[resolve_index(self.note_paths(), target@)],
    {
        assert(self.note_paths() =~= keys_of(self.notes@));
        match resolve_link(&self.notes, target) {
            Some((p, _)) => Some(p),
            None => None,
        }
    }

    /// Resolves the reference `target` among the vault's assets: the asset
    /// it leads to, with its path, or nothing.
    pub fn resolve_embedded_link(&self, target: &str) -> (r: Option<(ItemPath, &EmbeddedFile)>)
        ensures
            resolve_index(keys_of(self.file_entries()), target@) < 0 ==> r is None,
            resolve_index(keys_of(self.file_entries()), target@) >= 0 ==> r is Some
                && r->Some_0.0@ == keys_of(self.file_entries())[resolve_index(keys_of(self.file_entries()), target@)]
                && *r->Some_0.1 == self.file_entries()[resolve_index(keys_of(self.file_entries()), target@)].1,
    {
        resolve_link(&self.files, target)
    }

    /// The notes, each under its path.
    pub fn notes(&self) -> (r: Vec<(&ItemPath, &Note)>)
        ensures
            r@.len() == self.note_entries().len(),
            forall|i: int| 0 <= i < r@.len() ==> *r@[i].0 == self.note_entries()[i].0 && *r@[i].1 == self.note_entries()[i].1,
    {
        let mut out: Vec<(&ItemPath, &Note)> = Vec::new();
        let mut i: usize = 0;
        while i < self.notes.len()
            invariant
                i <= self.notes@.len(),
                out@.len() == i,
                forall|k: int| 0 <= k < i ==> *out@[k].0 == self.notes@[k].0 && *out@[k].1 == self.notes@[k].1.note,
            decreases self.notes@.len() - i,
        {
            out.push((&self.notes[i].0, &self.notes[i].1.note));
            i = i + 1;
        }
        out
    }

    /// The assets, each under its path.
    pub fn files(&self) -> (r: &Vec<(ItemPath, EmbeddedFile)>)
        ensures
            r@ == self.file_entries(),
    {
        &self.files
    }

    /// The directory the vault was read from.
    pub fn root(&self) -> (r: &String)
        ensures
            r@ == self.root_text(),
    {
        &self.root
    }

    /// The directory the vault was read from.
    pub closed spec fn root_text(&self) -> Seq<char> {
        self.root@
    }

    proof fn lemma_edges_join_notes(&self, e: (PathModel, PathModel))
        requires
            self.wf(),
            self.edges().contains(e),
        ensures
            self.note_paths().contains(e.0),
            self.note_paths().contains(e.1),
    {
        assert(self.note_paths() =~= keys_of(self.notes@));
        let g = self.graph;
        let k = choose|k: int| 0 <= k < graph_edges(g).len() && graph_nodes(g)[#[trigger] graph_edges(g)[k].0] == e.0
            && graph_nodes(g)[graph_edges(g)[k].1] == e.1;
        let a = graph_edges(g)[k].0;
        let b = graph_edges(g)[k].1;
        assert(graph_nodes(g).contains_key(a) && graph_nodes(g).contains_key(b));
        let i = choose|i: int| 0 <= i < self.notes@.len() && self.notes@[i].1.index == a;
        let j = choose|j: int| 0 <= j < self.notes@.len() && self.notes@[j].1.index == b;
        assert(keys_of(self.notes@)[i] == e.0);
        assert(keys_of(self.notes@)[j] == e.1);
    }

    /// The position of the note at `p`, if there is one.
    fn find_note(&self, p: &ItemPath) -> (r: Option<usize>)
        requires
            self.wf(),
        ensures
            match r {
                Some(i) => i < self.notes@.len() && keys_of(self.notes@)[i as int] == p@
                    && keys_of(self.notes@).index_of(p@) == i,
                None => !keys_of(self.notes@).contains(p@),
            },
    {
        let ghost keys = keys_of(self.notes@);
        let mut i: usize = 0;
        while i < self.notes.len()
            invariant
                i <= self.notes@.len(),
                keys == keys_of(self.notes@),
                self.wf(),
                forall|j: int| 0 <= j < i ==> keys[j] != p@,
            decreases self.notes@.len() - i,
        {
            if self.notes[i].0.eq(p) {
                assert(keys[i as int] == p@);
                assert(keys.contains(p@));
                let ghost k = keys.index_of(p@);
                assert(keys[k] == p@);
                assert(k == i) by {
                    if k != i {
                        assert(unique_paths(keys));
                    }
                }
                return Some(i);
            }
            i = i + 1;
        }
        None
    }

    /// The note at `path`, if the vault has one.
    pub fn get_note(&self, path: &ItemPath) -> (r: Option<&Note>)
        ensures
            match r {
                Some(n) => self.note_paths().contains(path@)
                    && *n == self.note_entries()[self.note_paths().index_of(path@)].1,
                None => !self.note_paths().contains(path@),
            },
    {
        proof {
            use_type_invariant(self);
        }
        assert(keys_of(self.notes@) =~= self.note_paths());
        match self.find_note(path) {
            Some(i) => Some(&self.notes[i].1.note),
            None => None,
        }
    }
}

} // verus!
