//! The persisted registry format: serialization and reloading.

use page_rank_from_scratch::registry::{decode_registry, encode_registry, SiteKey, SiteLog};

fn site(url: &str, title: &str, connections: Vec<SiteKey>) -> SiteLog {
    SiteLog { url: url.to_string(), title: title.to_string(), connections }
}

#[test]
fn serialize_reload_same_records() {
    let sites = vec![
        site("https://example.com/a", "Rusty gears", vec![SiteKey::new(1)]),
        site("https://example.com/b", "Gears of iron", vec![]),
        site(
            "https://example.com/c",
            "A quiet page",
            vec![SiteKey::new(2), SiteKey::new(0), SiteKey::new(1)],
        ),
    ];
    let text = encode_registry(&sites);
    let reloaded = decode_registry(text.as_str()).expect("reload");
    assert_eq!(reloaded.len(), sites.len());
    for i in 0..sites.len() {
        assert_eq!(reloaded[i].url, sites[i].url);
        assert_eq!(reloaded[i].title, sites[i].title);
        assert_eq!(reloaded[i].connections, sites[i].connections);
    }
}

#[test]
fn serialize_survives_awkward_characters() {
    let sites = vec![site(
        "https://example.com/x?q=a,b",
        "line\\break\nand, comma",
        vec![SiteKey::new(0)],
    )];
    let text = encode_registry(&sites);
    let back = decode_registry(text.as_str()).expect("reload");
    assert_eq!(back.len(), 1);
    assert_eq!(back[0].url, "https://example.com/x?q=a,b");
    assert_eq!(back[0].title, "line\\break\nand, comma");
    assert_eq!(back[0].connections, vec![SiteKey::new(0)]);
}

#[test]
fn malformed_registries_are_rejected() {
    // a field without its closing line break
    assert!(decode_registry("no trailing newline").is_none());
    // a connection pointing outside the registry
    assert!(decode_registry("a\nb\n9,\n").is_none());
    // letters where the connection list should be
    assert!(decode_registry("a\nb\nx\n").is_none());
    // the empty input is the empty registry
    assert_eq!(decode_registry("").expect("empty").len(), 0);
}
