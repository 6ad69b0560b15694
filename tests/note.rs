use obsidian_garden::metadata::{
    parse_frontmatter, Metadata, MetadataError, MetadataValue,
};
use obsidian_garden::note::{collect_tags, Note, NoteError};
use obsidian_garden::wikilink::Wikilink;

const EXAMPLE_NOTE: &str = "---\npublished: true\ncategory: Example\n---\n#example\n\nExample content. With #test tag inside.\n\n## Heading 2\n\n[[Page Name|Link label]]\n\nThis is a [[WikiLink]]. And this is a [Markdown Link](https://example.com)\n\nInline `let a = 2 + 2;` example\n\n#code/rust\n\n```rust\nfn main () {\n    println!(\"ok\");\n}\n```";

#[test]
fn test_parse_note() {
    let content = EXAMPLE_NOTE;
    let note = Note::parse("Example", content).expect("note parse");

    let metadata = vec![
        ("published".to_string(), MetadataValue::Boolean(true)),
        (
            "category".to_string(),
            MetadataValue::String("Example".to_string()),
        ),
    ];

    assert_eq!(
        note,
        Note {
            title: "Example".to_string(),
            content: r#"#example

Example content. With #test tag inside.

## Heading 2

[[Page Name|Link label]]

This is a [[WikiLink]]. And this is a [Markdown Link](https://example.com)

Inline `let a = 2 + 2;` example

#code/rust

```rust
fn main () {
    println!("ok");
}
```"#
                .to_string(),
            tags: vec![
                "example".to_string(),
                "test".to_string(),
                "code/rust".to_string()
            ],
            links: vec![
                Wikilink::new("Page Name", Some("Link label")),
                Wikilink::new("WikiLink", None),
            ],
            metadata: Metadata::from(metadata),
        }
    );
}

#[test]
fn test_parse_frontmatter() {
    let content = r#"---
key1: value1
tags:
  - t1
  - t2
---
"#;
    let metadata = vec![
        (
            "key1".to_string(),
            MetadataValue::String("value1".to_string()),
        ),
        (
            "tags".to_string(),
            MetadataValue::List(vec![
                MetadataValue::String("t1".to_string()),
                MetadataValue::String("t2".to_string()),
            ]),
        ),
    ];
    assert_eq!(
        parse_frontmatter(content).unwrap(),
        (Metadata::from(metadata), "")
    );
}

#[test]
fn test_parse_frontmatter_invalid_yaml() {
    let content = r#"---
key1: value1
key1: value1
---
"#;
    assert!(matches!(
        parse_frontmatter(content).unwrap_err(),
        MetadataError::FrontMatterYamlError(_)
    ),);
}

#[test]
fn test_parse_frontmatter_mapping_key_is_not_string() {
    let content = r#"---
42: oops
---
"#;
    assert!(matches!(
        parse_frontmatter(content).unwrap_err(),
        MetadataError::MetadataMappingKeyTypeError()
    ),);
}

#[test]
fn frontmatter_absent_means_whole_body() {
    let (metadata, body) = parse_frontmatter("no block\n---\nhere").unwrap();
    assert_eq!(metadata, Metadata::from(vec![]));
    assert_eq!(body, "no block\n---\nhere");
}

#[test]
fn frontmatter_without_closing_marker_drops_opening_line() {
    let (metadata, body) = parse_frontmatter("---\na: b\n").unwrap();
    assert_eq!(metadata, Metadata::from(vec![]));
    assert_eq!(body, "a: b\n");
}

#[test]
fn frontmatter_closing_marker_must_start_a_line() {
    let (metadata, body) = parse_frontmatter("---\na: x---\n---\nbody").unwrap();
    assert_eq!(
        metadata,
        Metadata::from(vec![("a".to_string(), MetadataValue::String("x---".to_string()))])
    );
    assert_eq!(body, "body");
}

#[test]
fn frontmatter_keeps_every_supported_value_kind() {
    let content = "---\nn: ~\nb: false\ns: text\nl:\n  - 1\n  - two\nm:\n  inner: yes\n  deep:\n    k: v\n---\nbody";
    let (metadata, body) = parse_frontmatter(content).unwrap();
    assert_eq!(body, "body");
    let expected = Metadata::from(vec![
        ("n".to_string(), MetadataValue::Null),
        ("b".to_string(), MetadataValue::Boolean(false)),
        ("s".to_string(), MetadataValue::String("text".to_string())),
        (
            "l".to_string(),
            MetadataValue::List(vec![
                MetadataValue::Number(serde_yaml::Number::from(1)),
                MetadataValue::String("two".to_string()),
            ]),
        ),
        (
            "m".to_string(),
            MetadataValue::Mapping(vec![
                ("inner".to_string(), MetadataValue::String("yes".to_string())),
                (
                    "deep".to_string(),
                    MetadataValue::Mapping(vec![(
                        "k".to_string(),
                        MetadataValue::String("v".to_string()),
                    )]),
                ),
            ]),
        ),
    ]);
    assert_eq!(metadata, expected);
}

#[test]
fn frontmatter_not_a_mapping_is_a_structure_error() {
    assert!(matches!(
        parse_frontmatter("---\n- a\n- b\n---\n").unwrap_err(),
        MetadataError::MetadataMappingKeyTypeError()
    ));
}

#[test]
fn frontmatter_nested_non_string_key_is_a_structure_error() {
    assert!(matches!(
        parse_frontmatter("---\nm:\n  1: x\n---\n").unwrap_err(),
        MetadataError::MetadataMappingKeyTypeError()
    ));
}

#[test]
fn frontmatter_tagged_value_is_refused() {
    assert!(matches!(
        parse_frontmatter("---\na: !Thing 3\n---\n").unwrap_err(),
        MetadataError::UnsupportedTaggedValue()
    ));
}

#[test]
fn inline_tags_in_order_and_bare_hash_ignored() {
    let mut tags = Vec::new();
    collect_tags("#foo and #bar/baz and #", &mut tags);
    assert_eq!(tags, vec!["foo".to_string(), "bar/baz".to_string()]);
}

#[test]
fn inline_tags_are_appended_with_duplicates() {
    let mut tags = vec!["x".to_string()];
    collect_tags("#x #y_z-1 (#w) ## #", &mut tags);
    assert_eq!(
        tags,
        vec!["x".to_string(), "x".to_string(), "y_z-1".to_string(), "w".to_string()]
    );
}

#[test]
fn inline_tag_ends_at_next_hash() {
    let mut tags = Vec::new();
    collect_tags("#a#b", &mut tags);
    assert_eq!(tags, vec!["a".to_string(), "b".to_string()]);
}

#[test]
fn metadata_tags_scalar_then_list() {
    let metadata = Metadata::from(vec![
        ("tags".to_string(), MetadataValue::List(vec![
            MetadataValue::String("l1".to_string()),
            MetadataValue::Boolean(true),
            MetadataValue::String("l2".to_string()),
        ])),
        ("tag".to_string(), MetadataValue::String(" a, b ,c".to_string())),
    ]);
    assert_eq!(
        metadata.tags(),
        vec!["a".to_string(), "b".to_string(), "c".to_string(), "l1".to_string(), "l2".to_string()]
    );
}

#[test]
fn metadata_from_keeps_last_value_of_repeated_key() {
    let metadata = Metadata::from(vec![
        ("tag".to_string(), MetadataValue::String("first".to_string())),
        ("tag".to_string(), MetadataValue::String("second".to_string())),
    ]);
    assert_eq!(metadata.tags(), vec!["second".to_string()]);
}

#[test]
fn note_tags_frontmatter_first_then_inline_not_deduplicated() {
    let note = Note::parse("t", "---\ntag: x\ntags:\n  - y\n---\nSee #x and #z.\n").unwrap();
    assert_eq!(
        note.tags,
        vec!["x".to_string(), "y".to_string(), "x".to_string(), "z".to_string()]
    );
    assert_eq!(note.content, "See #x and #z.\n");
}

#[test]
fn note_with_bad_frontmatter_fails() {
    assert!(matches!(
        Note::parse("t", "---\na: [\n---\nbody"),
        Err(NoteError::MetadataValueError(MetadataError::FrontMatterYamlError(_)))
    ));
}

#[test]
fn note_links_in_order() {
    let note = Note::parse("t", "[[A]] then ![[b.png]] then [[C|see c]]").unwrap();
    assert_eq!(
        note.links,
        vec![
            Wikilink::new("A", None),
            Wikilink::embedded("b.png"),
            Wikilink::new("C", Some("see c")),
        ]
    );
}

#[test]
fn yaml_values_convert_one_for_one() {
    let value: serde_yaml::Value = serde_yaml::from_str("[1, 'a', true, null, {k: [x]}]").unwrap();
    assert_eq!(
        MetadataValue::try_from_yaml(value).unwrap(),
        MetadataValue::List(vec![
            MetadataValue::Number(serde_yaml::Number::from(1)),
            MetadataValue::String("a".to_string()),
            MetadataValue::Boolean(true),
            MetadataValue::Null,
            MetadataValue::Mapping(vec![(
                "k".to_string(),
                MetadataValue::List(vec![MetadataValue::String("x".to_string())]),
            )]),
        ])
    );
}

#[test]
fn yaml_conversion_refuses_non_string_keys_and_tags() {
    let value: serde_yaml::Value = serde_yaml::from_str("[{1: a}]").unwrap();
    assert!(matches!(
        MetadataValue::try_from_yaml(value),
        Err(MetadataError::MetadataMappingKeyTypeError())
    ));
    let value: serde_yaml::Value = serde_yaml::from_str("!T 1").unwrap();
    assert!(matches!(
        MetadataValue::try_from_yaml(value),
        Err(MetadataError::UnsupportedTaggedValue())
    ));
}

#[test]
fn metadata_from_yaml_needs_a_mapping() {
    let value: serde_yaml::Value = serde_yaml::from_str("b: 2\na: 1").unwrap();
    let metadata = Metadata::from_yaml(value).unwrap();
    assert_eq!(
        metadata,
        Metadata::from(vec![
            ("b".to_string(), MetadataValue::Number(serde_yaml::Number::from(2))),
            ("a".to_string(), MetadataValue::Number(serde_yaml::Number::from(1))),
        ])
    );
    let value: serde_yaml::Value = serde_yaml::from_str("just text").unwrap();
    assert!(matches!(
        Metadata::from_yaml(value),
        Err(MetadataError::MetadataMappingKeyTypeError())
    ));
}

#[test]
fn note_tags_from_scalar_and_list_then_inline() {
    let note = Note::parse("t", "---\ntag: x, y\ntags:\n  - z\n---\n#x and #w\n").unwrap();
    assert_eq!(
        note.tags,
        vec!["x".to_string(), "y".to_string(), "z".to_string(), "x".to_string(), "w".to_string()]
    );
}

#[test]
fn frontmatter_list_block_is_a_key_type_error_for_notes() {
    assert!(matches!(
        Note::parse("t", "---\n- a\n- b\n---\nbody"),
        Err(NoteError::MetadataValueError(MetadataError::MetadataMappingKeyTypeError()))
    ));
}

#[test]
fn frontmatter_trim_removes_unicode_white_space() {
    let metadata = Metadata::from(vec![(
        "tag".to_string(),
        MetadataValue::String("\u{3000}a\t,\u{a0}b ".to_string()),
    )]);
    assert_eq!(metadata.tags(), vec!["a".to_string(), "b".to_string()]);
}
