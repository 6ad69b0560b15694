use obsidian_garden::builder::{classify, FileKind, VaultBuilder, VaultFile};
use obsidian_garden::path::ItemPath;
use obsidian_garden::site::embedded_file_html;
use obsidian_garden::vault::{resolve_link, EmbeddedFile, Vault};
use std::collections::BTreeSet;

fn note_file(path: &str, content: &str) -> VaultFile {
    VaultFile {
        relative_path: path.to_string(),
        location: format!("/vault/{path}"),
        content: Some(content.to_string()),
    }
}

fn asset_file(path: &str) -> VaultFile {
    VaultFile {
        relative_path: path.to_string(),
        location: format!("/vault/{path}"),
        content: None,
    }
}

fn abs(parts: &[&str]) -> ItemPath {
    ItemPath::Absolute(parts.iter().map(|p| p.to_string()).collect())
}

fn node_set(g: &obsidian_garden::graph::PathGraph) -> BTreeSet<String> {
    g.node_weights().map(|p| p.to_string()).collect()
}

fn edge_set(g: &obsidian_garden::graph::PathGraph) -> BTreeSet<(String, String)> {
    g.edge_indices()
        .map(|e| {
            let (a, b) = g.edge_endpoints(e).unwrap();
            (g[a].to_string(), g[b].to_string())
        })
        .collect()
}

fn vault_edges(v: &Vault) -> BTreeSet<(String, String)> {
    let mut out = BTreeSet::new();
    for (p, _) in v.notes() {
        if let Some(g) = v.local_graph(p, 0) {
            for (a, b) in edge_set(&g) {
                if a == p.to_string() {
                    out.insert((a, b));
                }
            }
        }
    }
    out
}

#[test]
fn embedded_file_image_html() {
    let file = EmbeddedFile::Image("./files/image.webp".into());
    let html = embedded_file_html(&file, &ItemPath::from_path("./files/image.webp"), "");
    assert_eq!(html, r#"<img src="./files/image.webp">"#);
}

#[test]
fn embedded_file_audio_html() {
    let file = EmbeddedFile::Audio("./files/audio.ogg".into());
    let html = embedded_file_html(&file, &ItemPath::from_path("./files/audio.ogg"), "");
    assert_eq!(html, r#"<audio src="./files/audio.ogg" controls></audio>"#);
}

#[test]
fn embedded_file_video_html() {
    let file = EmbeddedFile::Video("./files/video.ogv".into());
    let html = embedded_file_html(&file, &ItemPath::from_path("./files/video.ogv"), "");
    assert_eq!(html, r#"<video src="./files/video.ogv" controls></video>"#);
}

#[test]
fn embedded_file_pdf_html() {
    let file = EmbeddedFile::Pdf("./files/document.pdf".into());
    let html = embedded_file_html(
        &file,
        &ItemPath::from_path("./files/document.pdf"),
        "page=1",
    );
    assert_eq!(
        html,
        r#"<iframe src="./files/document.pdf#page=1" frameborder="0"></iframe>"#
    );
}

#[test]
fn paths_from_filesystem_paths() {
    assert_eq!(ItemPath::from_path("a/b/c.png"), abs(&["a", "b", "c.png"]));
    assert_eq!(ItemPath::from_path("a//b/./c.png/"), abs(&["a", "b", "c.png"]));
    assert_eq!(ItemPath::from_path("./a"), abs(&[".", "a"]));
    assert_eq!(ItemPath::from_path_without_ext("notes/Some note.md"), abs(&["notes", "Some note"]));
    assert_eq!(ItemPath::from_path_without_ext("x.tar.md"), abs(&["x.tar"]));
    assert_eq!(ItemPath::from_path_without_ext(".hidden"), abs(&[".hidden"]));
}

#[test]
fn paths_from_text() {
    assert_eq!(ItemPath::from_text("a/b".to_string()), abs(&["a", "b"]));
    assert_eq!(ItemPath::from_text("a/".to_string()), abs(&["a", ""]));
    assert_eq!(ItemPath::from_text("b".to_string()), ItemPath::FileName("b".to_string()));
    assert_eq!(abs(&["a", "b"]).to_string(), "a/b");
    assert_eq!(ItemPath::FileName("b".to_string()).to_string(), "b");
    assert!(ItemPath::FileName("a".to_string()) != abs(&["a"]));
    assert_eq!(abs(&["a", "b"]).duplicate(), abs(&["a", "b"]));
}

#[test]
fn file_kinds_by_suffix() {
    assert_eq!(classify("a.md"), FileKind::Note);
    assert_eq!(classify("a.MD"), FileKind::Ignored);
    assert_eq!(classify("a.jpeg"), FileKind::Image);
    assert_eq!(classify("a.webm"), FileKind::Audio);
    assert_eq!(classify("a.mkv"), FileKind::Video);
    assert_eq!(classify("a.pdf"), FileKind::Pdf);
    assert_eq!(classify("a.txt"), FileKind::Ignored);
    assert_eq!(classify(""), FileKind::Ignored);
}

#[test]
fn resolution_bare_absolute_and_missing() {
    let vault = VaultBuilder::new("/vault").build(vec![
        note_file("a/b.md", "A"),
        note_file("c/b.md", "C"),
    ]);
    let found = vault.resolve_link("b").unwrap();
    assert!(found == abs(&["a", "b"]) || found == abs(&["c", "b"]));
    match found {
        ItemPath::Absolute(parts) => assert_eq!(parts.last().unwrap(), "b"),
        ItemPath::FileName(_) => panic!("bare path returned"),
    }
    assert_eq!(vault.resolve_link("a/b"), Some(abs(&["a", "b"])));
    assert_eq!(vault.resolve_link("c/b"), Some(abs(&["c", "b"])));
    assert_eq!(vault.resolve_link("z"), None);
    assert_eq!(vault.resolve_link("z/b"), None);
}

#[test]
fn resolve_link_over_an_index() {
    let index = vec![(abs(&["x", "y"]), 1), (abs(&["z"]), 2)];
    assert_eq!(resolve_link(&index, "y"), Some((abs(&["x", "y"]), &1)));
    assert_eq!(resolve_link(&index, "x/y"), Some((abs(&["x", "y"]), &1)));
    assert_eq!(resolve_link(&index, "x"), None);
}

#[test]
fn assets_are_indexed_with_extension() {
    let vault = VaultBuilder::new("/vault").build(vec![
        asset_file("img/a.png"),
        asset_file("doc.pdf"),
        asset_file("notes.txt"),
        note_file("n.md", "![[a.png]]"),
    ]);
    assert_eq!(vault.files().len(), 2);
    let (path, file) = vault.resolve_embedded_link("a.png").unwrap();
    assert_eq!(path, abs(&["img", "a.png"]));
    assert_eq!(file, &EmbeddedFile::Image("/vault/img/a.png".to_string()));
    assert!(vault.resolve_embedded_link("notes.txt").is_none());
    assert_eq!(vault.root(), "/vault");
}

#[test]
fn unresolvable_and_embedded_links_make_no_edge() {
    let vault = VaultBuilder::new("/v").build(vec![
        note_file("a.md", "[[missing]] and ![[b]] and [[b]]"),
        note_file("b.md", "nothing"),
    ]);
    assert_eq!(vault.notes().len(), 2);
    assert_eq!(
        vault_edges(&vault),
        BTreeSet::from([("a".to_string(), "b".to_string())])
    );
}

#[test]
fn local_graph_counts_expansions_not_layers() {
    let vault = VaultBuilder::new("/v").build(vec![
        note_file("A.md", "[[B]]"),
        note_file("B.md", "[[C]]"),
        note_file("C.md", "[[D]]"),
        note_file("D.md", "end"),
    ]);
    let g = vault.local_graph(&abs(&["A"]), 1).unwrap();
    assert_eq!(
        node_set(&g),
        BTreeSet::from(["A".to_string(), "B".to_string(), "C".to_string()])
    );
    assert_eq!(
        edge_set(&g),
        BTreeSet::from([
            ("A".to_string(), "B".to_string()),
            ("B".to_string(), "C".to_string())
        ])
    );
    let g0 = vault.local_graph(&abs(&["A"]), 0).unwrap();
    assert_eq!(node_set(&g0), BTreeSet::from(["A".to_string(), "B".to_string()]));
    assert!(vault.local_graph(&abs(&["Z"]), 3).is_none());
}

#[test]
fn local_graph_budget_is_shared_across_branches() {
    let vault = VaultBuilder::new("/v").build(vec![
        note_file("A.md", "[[B]] [[C]]"),
        note_file("B.md", "[[D]]"),
        note_file("C.md", "[[E]]"),
        note_file("D.md", "x"),
        note_file("E.md", "x"),
    ]);
    let g = vault.local_graph(&abs(&["A"]), 1).unwrap();
    let nodes = node_set(&g);
    assert!(nodes.contains("A") && nodes.contains("B") && nodes.contains("C"));
    assert_eq!(nodes.len(), 4);
    assert_eq!(edge_set(&g).len(), 3);
}

#[test]
fn local_graph_handles_cycles() {
    let vault = VaultBuilder::new("/v").build(vec![
        note_file("A.md", "[[B]]"),
        note_file("B.md", "[[A]] [[A]]"),
    ]);
    let g = vault.local_graph(&abs(&["A"]), 10).unwrap();
    assert_eq!(node_set(&g), BTreeSet::from(["A".to_string(), "B".to_string()]));
    assert_eq!(
        edge_set(&g),
        BTreeSet::from([
            ("A".to_string(), "B".to_string()),
            ("B".to_string(), "A".to_string())
        ])
    );
    assert_eq!(g.edge_count(), 2);
}

#[test]
fn tag_filter_excludes_notes_and_their_edges() {
    let mut builder = VaultBuilder::new("/v");
    builder.filter_tags(vec!["project".to_string()]);
    let vault = builder.build(vec![
        note_file("keep.md", "#project [[drop]] [[keep2]]"),
        note_file("keep2.md", "---\ntags:\n  - project\n---\n[[drop]]"),
        note_file("drop.md", "#other [[keep]]"),
    ]);
    let mut paths: Vec<String> = vault.notes().iter().map(|(p, _)| p.to_string()).collect();
    paths.sort();
    assert_eq!(paths, vec!["keep".to_string(), "keep2".to_string()]);
    assert!(vault.get_note(&abs(&["drop"])).is_none());
    assert!(vault.local_graph(&abs(&["drop"]), 2).is_none());
    assert_eq!(vault.resolve_link("drop"), None);
    assert_eq!(
        vault_edges(&vault),
        BTreeSet::from([("keep".to_string(), "keep2".to_string())])
    );
}

#[test]
fn unreadable_and_broken_notes_are_skipped() {
    let vault = VaultBuilder::new("/v").build(vec![
        asset_file("unread.md"),
        note_file("bad.md", "---\n: [\n---\n"),
        note_file("good.md", "fine"),
    ]);
    assert_eq!(vault.notes().len(), 1);
    let note = vault.get_note(&abs(&["good"])).unwrap();
    assert_eq!(note.content, "fine");
}

#[test]
fn later_file_wins_for_same_path() {
    let vault = VaultBuilder::new("/v").build(vec![
        note_file("a.md", "first"),
        note_file("./a.md", "second"),
    ]);
    assert_eq!(vault.notes().len(), 2);
    let vault = VaultBuilder::new("/v").build(vec![
        note_file("x/a.md", "first"),
        note_file("x//a.md", "second"),
    ]);
    assert_eq!(vault.notes().len(), 1);
    assert_eq!(vault.get_note(&abs(&["x", "a"])).unwrap().content, "second");
}

#[test]
fn notes_are_titled_with_their_file_stem() {
    let vault = VaultBuilder::new("/v").build(vec![
        note_file("dir/My Note.md", "text"),
        note_file("bad.md", "---\n42: oops\n---\n"),
    ]);
    assert_eq!(vault.notes().len(), 1);
    assert_eq!(vault.get_note(&abs(&["dir", "My Note"])).unwrap().title, "My Note");
    assert!(vault.get_note(&abs(&["bad"])).is_none());
}

#[test]
fn filter_keeps_notes_tagged_in_frontmatter() {
    let mut builder = VaultBuilder::new("/v");
    builder.filter_tags(vec!["project".to_string()]);
    let vault = builder.build(vec![
        note_file("P.md", "---\ntag: a, project\n---\n#other [[Q]]"),
        note_file("Q.md", "#other"),
    ]);
    assert!(vault.get_note(&abs(&["P"])).is_some());
    assert!(vault.get_note(&abs(&["Q"])).is_none());
    assert!(vault_edges(&vault).is_empty());
}
