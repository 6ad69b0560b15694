use obsidian_garden::builder::{VaultBuilder, VaultFile};
use obsidian_garden::path::ItemPath;
use obsidian_garden::site::{
    apply_links, note_anchor, render_link, replace_all, split_fragment, Menu, MenuItem,
};
use obsidian_garden::wikilink::Wikilink;

fn file(path: &str, content: Option<&str>) -> VaultFile {
    VaultFile {
        relative_path: path.to_string(),
        location: format!("/v/{path}"),
        content: content.map(|c| c.to_string()),
    }
}

fn abs(parts: &[&str]) -> ItemPath {
    ItemPath::Absolute(parts.iter().map(|p| p.to_string()).collect())
}

#[test]
fn replace_all_replaces_every_occurrence() {
    assert_eq!(replace_all("a[[x]]b[[x]]", "[[x]]", "X"), "aXbX");
    assert_eq!(replace_all("aaa", "aa", "b"), "ba");
    assert_eq!(replace_all("abc", "", "z"), "abc");
    assert_eq!(replace_all("", "a", "z"), "");
    assert_eq!(replace_all("héllo", "é", "e"), "hello");
}

#[test]
fn fragment_split_at_first_hash() {
    assert_eq!(split_fragment("doc.pdf#page=1"), ("doc.pdf".to_string(), "page=1".to_string()));
    assert_eq!(split_fragment("a#b#c"), ("a".to_string(), "b#c".to_string()));
    assert_eq!(split_fragment("plain"), ("plain".to_string(), "".to_string()));
}

#[test]
fn anchor_for_note_link() {
    assert_eq!(
        note_anchor(&abs(&["dir", "Page"]), "Label"),
        r#"<a href="/dir/Page.html" title="Label" class="wikilink">Label</a>"#
    );
}

#[test]
fn links_rendered_into_page() {
    let vault = VaultBuilder::new("/v").build(vec![
        file("dir/Page.md", Some("text")),
        file("files/doc.pdf", None),
        file("Home.md", Some("[[Page|see]] ![[doc.pdf#page=2]] [[Missing]]")),
    ]);
    let home = vault.get_note(&abs(&["Home"])).unwrap();
    assert_eq!(
        render_link(&vault, &Wikilink::new("Page", Some("see"))),
        Some((
            r#"<a href="/dir/Page.html" title="see" class="wikilink">see</a>"#.to_string(),
            None
        ))
    );
    assert_eq!(render_link(&vault, &Wikilink::new("Missing", None)), None);
    let (page, assets) = apply_links(&vault, "<p>[[Page|see]] ![[doc.pdf#page=2]] [[Missing]]</p>", &home.links);
    assert_eq!(
        page,
        r#"<p><a href="/dir/Page.html" title="see" class="wikilink">see</a> <iframe src="files/doc.pdf#page=2" frameborder="0"></iframe> [[Missing]]</p>"#
    );
    assert_eq!(assets, vec![abs(&["files", "doc.pdf"])]);
}

fn page_at<'a>(menu: &'a Menu, names: &[&str]) -> Option<&'a ItemPath> {
    let (first, rest) = names.split_first()?;
    let (_, item) = menu.items().iter().find(|(n, _)| n == first)?;
    match item {
        MenuItem::Page(p) if rest.is_empty() => Some(p),
        MenuItem::Folder(sub) if !rest.is_empty() => page_at(sub, rest),
        _ => None,
    }
}

#[test]
fn menu_files_pages_under_folders() {
    let mut menu = Menu::new();
    menu.add_path(&abs(&["a", "b", "c"]));
    menu.add_path(&abs(&["a", "d"]));
    menu.add_path(&abs(&["e"]));
    menu.add_path(&ItemPath::FileName("x".to_string()));
    assert_eq!(page_at(&menu, &["a", "b", "c"]), Some(&abs(&["a", "b", "c"])));
    assert_eq!(page_at(&menu, &["a", "d"]), Some(&abs(&["a", "d"])));
    assert_eq!(page_at(&menu, &["e"]), Some(&abs(&["e"])));
    assert_eq!(menu.items().len(), 2);
}

#[test]
fn menu_page_in_the_way_stops_the_walk() {
    let mut menu = Menu::new();
    menu.add_path(&abs(&["a"]));
    menu.add_path(&abs(&["a", "b"]));
    assert_eq!(page_at(&menu, &["a"]), Some(&abs(&["a"])));
    assert_eq!(page_at(&menu, &["a", "b"]), None);
    menu.add_path(&abs(&["a"]));
    assert_eq!(menu.items().len(), 1);
}
