use i18n_codegen::catalog::{EmitEntry, EmitValue};
use i18n_codegen::instance::{clone_entry, depth_of, instance_markers, shared_groups, Marker};
use i18n_codegen::path::{common_prefix, path_equal, path_less};
use i18n_codegen::render::{generate_locales_strings_instance, is_renderable, render_markers};
use i18n_codegen::views::{clone_path, clone_prefix};

fn path(segments: &[&str]) -> Vec<String> {
    segments.iter().map(|s| s.to_string()).collect()
}

fn literal(segments: &[&str], value: &str) -> EmitEntry {
    EmitEntry { path: path(segments), value: EmitValue::Literal(value.to_string()) }
}

fn fallback(segments: &[&str]) -> EmitEntry {
    EmitEntry { path: path(segments), value: EmitValue::FallbackRef(path(segments)) }
}

fn net_depth(markers: &[Marker]) -> (i64, i64) {
    let mut depth: i64 = 0;
    let mut lowest: i64 = 0;
    for m in markers {
        match m {
            Marker::Open(_) => depth += 1,
            Marker::Close(_) => depth -= 1,
            Marker::Leaf(_) => {}
        }
        if depth < lowest {
            lowest = depth;
        }
    }
    (depth, lowest)
}

#[test]
fn path_order_is_segment_wise_with_prefix_first() {
    assert!(path_less(&path(&["a"]), &path(&["a", "b"])));
    assert!(!path_less(&path(&["a", "b"]), &path(&["a"])));
    assert!(path_less(&path(&["a", "z"]), &path(&["b"])));
    assert!(path_less(&path(&["home", "body"]), &path(&["home", "title"])));
    assert!(!path_less(&path(&["home", "title"]), &path(&["home", "title"])));
    assert!(path_less(&path(&["ab"]), &path(&["b"])));
    assert!(path_less(&path(&["a"]), &path(&["ab"])));
    assert!(path_less(&path(&["Z"]), &path(&["a"])));
    assert!(path_less(&path(&[]), &path(&["a"])));
}

#[test]
fn path_equality_and_common_prefix() {
    assert!(path_equal(&path(&["a", "b"]), &path(&["a", "b"])));
    assert!(!path_equal(&path(&["a", "b"]), &path(&["a"])));
    assert!(!path_equal(&path(&["a", "b"]), &path(&["a", "c"])));
    assert_eq!(common_prefix(&path(&["a", "b", "c"]), &path(&["a", "b", "d"])), 2);
    assert_eq!(common_prefix(&path(&["a"]), &path(&["a", "b"])), 1);
    assert_eq!(common_prefix(&path(&["x"]), &path(&["a", "b"])), 0);
    assert_eq!(common_prefix(&path(&[]), &path(&["a"])), 0);
}

#[test]
fn path_copies() {
    assert_eq!(clone_path(&path(&["a", "b"])), path(&["a", "b"]));
    assert_eq!(clone_prefix(&path(&["a", "b", "c"]), 2), path(&["a", "b"]));
    assert_eq!(clone_prefix(&path(&["a", "b", "c"]), 0), path(&[]));
    let e = fallback(&["a", "b"]);
    assert_eq!(clone_entry(&e), e);
}

#[test]
fn depths_of_paths() {
    assert_eq!(depth_of(&path(&[])), 0);
    assert_eq!(depth_of(&path(&["a"])), 0);
    assert_eq!(depth_of(&path(&["a", "b", "c"])), 2);
    assert_eq!(shared_groups(&path(&["a", "b", "c"]), &path(&["a", "b", "d"])), 2);
    assert_eq!(shared_groups(&path(&["a", "b"]), &path(&["a", "b"])), 1);
    assert_eq!(shared_groups(&path(&["a"]), &path(&["a", "b"])), 0);
    assert_eq!(shared_groups(&path(&[]), &path(&["a", "b"])), 0);
}

#[test]
fn markers_open_and_close_around_leaves() {
    let entries = vec![literal(&["a", "x"], "1"), fallback(&["a", "y"]), literal(&["b"], "3")];
    let markers = instance_markers(&entries);
    assert_eq!(
        markers,
        vec![
            Marker::Open(path(&["a"])),
            Marker::Leaf(literal(&["a", "x"], "1")),
            Marker::Leaf(fallback(&["a", "y"])),
            Marker::Close(path(&["a"])),
            Marker::Leaf(literal(&["b"], "3")),
        ]
    );
    assert_eq!(net_depth(&markers), (0, 0));
}

#[test]
fn markers_of_deep_siblings() {
    let entries = vec![
        literal(&["a", "b", "c"], "1"),
        literal(&["a", "d", "e", "f"], "2"),
        literal(&["g"], "3"),
        literal(&["h", "i"], "4"),
    ];
    let markers = instance_markers(&entries);
    assert_eq!(
        markers,
        vec![
            Marker::Open(path(&["a"])),
            Marker::Open(path(&["a", "b"])),
            Marker::Leaf(literal(&["a", "b", "c"], "1")),
            Marker::Close(path(&["a", "b"])),
            Marker::Open(path(&["a", "d"])),
            Marker::Open(path(&["a", "d", "e"])),
            Marker::Leaf(literal(&["a", "d", "e", "f"], "2")),
            Marker::Close(path(&["a", "d", "e"])),
            Marker::Close(path(&["a", "d"])),
            Marker::Close(path(&["a"])),
            Marker::Leaf(literal(&["g"], "3")),
            Marker::Open(path(&["h"])),
            Marker::Leaf(literal(&["h", "i"], "4")),
            Marker::Close(path(&["h"])),
        ]
    );
    assert_eq!(net_depth(&markers), (0, 0));
}

#[test]
fn markers_of_same_depth_under_other_parents() {
    let entries = vec![literal(&["a", "x", "p"], "1"), literal(&["b", "x", "q"], "2")];
    let markers = instance_markers(&entries);
    assert_eq!(
        markers,
        vec![
            Marker::Open(path(&["a"])),
            Marker::Open(path(&["a", "x"])),
            Marker::Leaf(literal(&["a", "x", "p"], "1")),
            Marker::Close(path(&["a", "x"])),
            Marker::Close(path(&["a"])),
            Marker::Open(path(&["b"])),
            Marker::Open(path(&["b", "x"])),
            Marker::Leaf(literal(&["b", "x", "q"], "2")),
            Marker::Close(path(&["b", "x"])),
            Marker::Close(path(&["b"])),
        ]
    );
}

#[test]
fn markers_balance_on_entries_out_of_order() {
    let entries = vec![
        literal(&["a", "b", "c"], "1"),
        literal(&["a"], "2"),
        literal(&["a", "b"], "3"),
        literal(&["a", "b"], "4"),
        literal(&["z", "y", "x", "w"], "5"),
    ];
    let markers = instance_markers(&entries);
    assert_eq!(net_depth(&markers), (0, 0));
    let leaves: Vec<EmitEntry> = markers
        .iter()
        .filter_map(|m| match m {
            Marker::Leaf(e) => Some(e.clone()),
            _ => None,
        })
        .collect();
    assert_eq!(leaves, entries);
}

#[test]
fn markers_of_no_entries() {
    let entries: Vec<EmitEntry> = Vec::new();
    assert_eq!(instance_markers(&entries), Vec::new());
    assert_eq!(
        generate_locales_strings_instance("STRINGS_DEFAULT", &entries),
        "\nconst STRINGS_DEFAULT: Strings = Strings {\n};\n"
    );
}

#[test]
fn instance_text_nests_and_indents() {
    let entries = vec![literal(&["a", "x"], "1"), fallback(&["a", "y"]), literal(&["b"], "3")];
    let text = generate_locales_strings_instance("STRINGS_FR", &entries);
    assert_eq!(
        text,
        "\nconst STRINGS_FR: Strings = Strings {\n    a: StringsA {\n        x: r################\"1\"################,\n        y: STRINGS_DEFAULT.a.y,\n    },\n    b: r################\"3\"################,\n};\n"
    );
}

#[test]
fn instance_text_converts_the_cases() {
    let entries = vec![fallback(&["site-info", "navBar", "homeLink"])];
    let text = generate_locales_strings_instance("STRINGS_NL_BE", &entries);
    assert_eq!(
        text,
        "\nconst STRINGS_NL_BE: Strings = Strings {\n    site_info: StringsSiteInfo {\n        nav_bar: StringsSiteInfoNavBar {\n            home_link: STRINGS_DEFAULT.site_info.nav_bar.home_link,\n        },\n    },\n};\n"
    );
}

#[test]
fn marker_lines() {
    let markers = vec![
        Marker::Open(path(&["a"])),
        Marker::Leaf(literal(&["a", "b"], "say \"hi\"")),
        Marker::Close(path(&["a"])),
    ];
    assert_eq!(
        render_markers(&markers),
        "    a: StringsA {\n        b: r################\"say \"hi\"\"################,\n    },\n"
    );
}

#[test]
fn entries_that_name_their_fields() {
    assert!(is_renderable(&vec![literal(&["a", "b"], "1"), fallback(&["c"])]));
    assert!(is_renderable(&Vec::new()));
    assert!(!is_renderable(&vec![literal(&[], "1")]));
    assert!(!is_renderable(&vec![literal(&["a", "\u{e9}"], "1")]));
    let odd = EmitEntry {
        path: path(&["a"]),
        value: EmitValue::FallbackRef(path(&["\u{e9}"])),
    };
    assert!(!is_renderable(&vec![odd]));
    assert!(is_renderable(&vec![literal(&["a"], "caf\u{e9}")]));
}

#[test]
fn open_depth_stays_below_the_longest_path() {
    let entries = vec![
        literal(&["a", "b", "c", "d"], "1"),
        literal(&["a", "b", "e"], "2"),
        literal(&["f"], "3"),
        literal(&["g", "h"], "4"),
    ];
    let markers = instance_markers(&entries);
    let mut depth: i64 = 0;
    let mut highest: i64 = 0;
    for m in &markers {
        match m {
            Marker::Open(_) => depth += 1,
            Marker::Close(_) => depth -= 1,
            Marker::Leaf(_) => {}
        }
        assert!(depth >= 0);
        if depth > highest {
            highest = depth;
        }
    }
    assert_eq!(depth, 0);
    assert_eq!(highest, 3);
}

#[test]
fn nesting_is_the_same_for_the_same_paths() {
    let first = vec![literal(&["a", "x"], "1"), literal(&["a", "y"], "2"), literal(&["b"], "3")];
    let second = vec![fallback(&["a", "x"]), literal(&["a", "y"], "other"), fallback(&["b"])];
    let shape = |markers: Vec<Marker>| -> Vec<(u8, Vec<String>)> {
        markers
            .into_iter()
            .map(|m| match m {
                Marker::Open(p) => (0, p),
                Marker::Close(p) => (1, p),
                Marker::Leaf(e) => (2, e.path),
            })
            .collect()
    };
    assert_eq!(shape(instance_markers(&first)), shape(instance_markers(&second)));
}
