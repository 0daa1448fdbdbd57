use mod_audit::asset::{get_full_path, get_parent_path, get_root_export, get_type, AssetTables, ExportEntry, ImportEntry, MetaError};
use mod_audit::classify::{classify, verification_rows, AssetType, AutoVerify};
use mod_audit::hierarchy::{build_forest, build_node_recursively, build_trees, find_roots, Hierarchy};
use mod_audit::lint::{container_paths, entry_of, lint_container, AuditError};
use mod_audit::owners::{build_ownership_index, Container};
use mod_audit::paths::pak_path_to_game_path;
use mod_audit::report::{class_hierarchy, record_of, render_forest, AssetRecord};
use mod_audit::tree::Node;

fn strings(v: &[&str]) -> Vec<String> {
    v.iter().map(|s| s.to_string()).collect()
}

fn record(full: &str, parent: Option<&str>, class: &str) -> AssetRecord {
    AssetRecord {
        full_path: full.to_string(),
        class_name: Ok(class.to_string()),
        parent: parent.map(|p| p.to_string()),
    }
}

fn leaf(id: &str) -> Node {
    Node { id: id.to_string(), children: vec![] }
}

#[test]
fn game_path_of_project_content() {
    assert_eq!(pak_path_to_game_path("ModName/Content/Foo/Bar"), Some("/Game/Foo/Bar".to_string()));
}

#[test]
fn game_path_of_engine_content() {
    assert_eq!(pak_path_to_game_path("Engine/Content/Foo"), Some("/Engine/Foo".to_string()));
}

#[test]
fn game_path_of_plugin_content() {
    assert_eq!(pak_path_to_game_path("Engine/Plugins/MyPlugin/Content/Foo"), Some("/MyPlugin/Foo".to_string()));
}

#[test]
fn game_path_of_nested_plugin_uses_last_name() {
    assert_eq!(
        pak_path_to_game_path("Engine/Plugins/Group/MyPlugin/Content/A/B"),
        Some("/MyPlugin/A/B".to_string())
    );
}

#[test]
fn game_path_fails_without_content() {
    assert_eq!(pak_path_to_game_path("Engine/Plugins/MyPlugin/NotContent/Foo"), None);
    assert_eq!(pak_path_to_game_path("ModName/Other/Foo"), None);
    assert_eq!(pak_path_to_game_path("Engine/Other/Foo"), None);
    assert_eq!(pak_path_to_game_path("Engine/Plugins/Content/Foo"), None);
    assert_eq!(pak_path_to_game_path(""), None);
}

#[test]
fn game_path_reads_components() {
    assert_eq!(pak_path_to_game_path("FSD//Content/./X"), Some("/Game/X".to_string()));
}

#[test]
fn game_path_needs_relative_path() {
    assert_eq!(pak_path_to_game_path("/FSD/Content/X"), None);
    assert_eq!(pak_path_to_game_path("./FSD/Content/X"), None);
    assert_eq!(pak_path_to_game_path("FSD/Content/X/"), Some("/Game/X".to_string()));
    assert_eq!(pak_path_to_game_path("FSD/Content/../X"), Some("/Game/../X".to_string()));
}

#[test]
fn entry_splits_extension() {
    let e = entry_of("Content/Foo.Bar.uasset");
    assert_eq!(e.parts, strings(&["Content", "Foo.Bar"]));
    assert_eq!(e.extension, Some("uasset".to_string()));
    let e = entry_of("Content/.hidden");
    assert_eq!(e.parts, strings(&["Content", ".hidden"]));
    assert_eq!(e.extension, None);
    let e = entry_of("Content/noext");
    assert_eq!(e.extension, None);
}

#[test]
fn invalid_mount_point_fails() {
    let files = strings(&["Content/A.uasset", "Content/A.uexp"]);
    match lint_container("../../FSD/", &files) {
        Err(AuditError::InvalidMountPoint(m)) => assert_eq!(m, "../../FSD/"),
        Ok(_) => panic!("expected an error"),
    }
    assert!(container_paths("FSD/", &files).is_err());
}

#[test]
fn split_pairs_and_complete_pairs() {
    let files = strings(&[
        "Content/B.ubulk",
        "Content/A.uexp",
        "Content/B.uasset",
        "Content/A.uasset",
        "Content/M.umap",
        "Content/M.uexp",
        "Content/E.uexp",
    ]);
    let r = lint_container("../../../FSD/", &files).unwrap();
    assert_eq!(
        r.split_pairs,
        strings(&["FSD/Content/B.uasset", "FSD/Content/B.ubulk", "FSD/Content/E.uexp"])
    );
    assert!(r.extraneous.is_empty());
    assert_eq!(r.pairs.len(), 2);
    assert_eq!(r.pairs[0].stem, strings(&["FSD", "Content", "A"]));
    assert_eq!(r.pairs[0].member, "Content/A.uasset");
    assert_eq!(r.pairs[1].stem, strings(&["FSD", "Content", "M"]));
    assert_eq!(r.pairs[1].member, "Content/M.umap");
}

#[test]
fn extraneous_files_but_the_exemption() {
    let files = strings(&["AssetRegistry.bin", "Content/readme.txt", "Content/noext", "Content/X.ini"]);
    let r = lint_container("../../../FSD/", &files).unwrap();
    assert_eq!(r.extraneous, strings(&["FSD/Content/noext", "FSD/Content/readme.txt"]));
    assert!(r.split_pairs.is_empty());
    let r = lint_container("../../../Other/", &files).unwrap();
    assert_eq!(
        r.extraneous,
        strings(&["Other/AssetRegistry.bin", "Other/Content/noext", "Other/Content/readme.txt"])
    );
}

#[test]
fn render_chain_of_three() {
    let records = vec![record("A", None, "Blueprint"), record("B", Some("A"), "Blueprint"), record("C", Some("B"), "Blueprint")];
    let (_, trees, _) = class_hierarchy(&records);
    assert_eq!(trees.len(), 1);
    assert_eq!(trees[0].id, "A");
    assert_eq!(render_forest(&trees, ""), "A\n└── B\n    └── C\n");
}

#[test]
fn render_branches() {
    let tree = Node {
        id: "R".to_string(),
        children: vec![Node { id: "A".to_string(), children: vec![leaf("C")] }, leaf("B")],
    };
    assert_eq!(tree.print("\t"), "\tR\n\t├── A\n\t│   └── C\n\t└── B\n");
}

#[test]
fn render_is_repeatable() {
    let records = vec![
        record("R", None, "Blueprint"),
        record("B", Some("R"), "Blueprint"),
        record("A", Some("R"), "Blueprint"),
        record("C", Some("A"), "Blueprint"),
    ];
    let (_, t1, _) = class_hierarchy(&records);
    let (_, t2, _) = class_hierarchy(&records);
    let first = render_forest(&t1, "\t");
    assert_eq!(first, render_forest(&t2, "\t"));
    assert_eq!(first, "\tR\n\t├── A\n\t│   └── C\n\t└── B\n");
}

#[test]
fn outside_parents_draw_no_edge() {
    let records = vec![record("/Game/A.A", Some("/Script/Engine.Actor"), "BlueprintGeneratedClass"), record("/Game/B.B", None, "Texture2D")];
    let (h, trees, _) = class_hierarchy(&records);
    assert!(h.entries.is_empty());
    assert!(trees.is_empty());
}

#[test]
fn hierarchy_edges_sorted_and_unique() {
    let mut h = Hierarchy::new();
    h.insert_edge("P", "b");
    h.insert_edge("P", "a");
    h.insert_edge("P", "b");
    h.insert_edge("Q", "P");
    assert_eq!(h.entries.len(), 2);
    assert_eq!(h.entries[0].parent, "P");
    assert_eq!(h.entries[0].children, strings(&["a", "b"]));
    assert_eq!(find_roots(&h), strings(&["Q"]));
    assert_eq!(build_node_recursively("P", &h).children.len(), 2);
    let trees = build_trees(&h);
    assert_eq!(render_forest(&trees, ""), "Q\n└── P\n    ├── a\n    └── b\n");
    assert!(!build_forest(&h).1);
}

#[test]
fn hierarchy_cycle_stops() {
    let mut h = Hierarchy::new();
    h.insert_edge("R", "A");
    h.insert_edge("A", "B");
    h.insert_edge("B", "A");
    let trees = build_trees(&h);
    assert_eq!(render_forest(&trees, ""), "R\n└── A\n    └── B\n        └── A\n");
    assert!(build_forest(&h).1);
}

#[test]
fn cycle_reported_from_records() {
    let records = vec![record("R", None, "Blueprint"), record("A", Some("B"), "Blueprint"), record("B", Some("A"), "Blueprint"), record("C", Some("R"), "Blueprint")];
    let (_, trees, cycle) = class_hierarchy(&records);
    assert!(cycle);
    assert_eq!(render_forest(&trees, ""), "R\n└── C\n");
    let records = vec![record("R", None, "Blueprint"), record("C", Some("R"), "Blueprint"), record("D", Some("C"), "Blueprint")];
    let (_, _, cycle) = class_hierarchy(&records);
    assert!(!cycle);
    let records = vec![record("R", None, "Blueprint"), record("A", Some("R"), "Blueprint"), record("B", Some("A"), "Blueprint"), record("A", Some("B"), "Blueprint")];
    let (_, _, cycle) = class_hierarchy(&records);
    assert!(cycle);
}

#[test]
fn tiers_of_classes() {
    assert_eq!(classify(&Ok("Texture2D".to_string())), AutoVerify::Pass);
    assert_eq!(classify(&Ok("StringTable".to_string())), AutoVerify::Pass);
    assert_eq!(classify(&Ok("Blueprint".to_string())), AutoVerify::Fail);
    assert_eq!(classify(&Err("failed to parse asset".to_string())), AutoVerify::Unknown);
}

#[test]
fn rows_in_tier_order() {
    let assets = vec![
        ("/Game/Z".to_string(), Err("bad".to_string())),
        ("/Game/B".to_string(), Ok("Blueprint".to_string())),
        ("/Game/A".to_string(), Ok("SoundWave".to_string())),
        ("/Game/C".to_string(), Ok("Material".to_string())),
        ("/Game/D".to_string(), Ok("Material".to_string())),
    ];
    let rows = verification_rows(&assets);
    let got: Vec<(AutoVerify, String, String)> = rows
        .iter()
        .map(|r| (r.tier, r.class.output().to_string(), r.path.clone()))
        .collect();
    assert_eq!(
        got,
        vec![
            (AutoVerify::Pass, "Material".to_string(), "/Game/C".to_string()),
            (AutoVerify::Pass, "Material".to_string(), "/Game/D".to_string()),
            (AutoVerify::Pass, "SoundWave".to_string(), "/Game/A".to_string()),
            (AutoVerify::Fail, "Blueprint".to_string(), "/Game/B".to_string()),
            (AutoVerify::Unknown, "bad".to_string(), "/Game/Z".to_string()),
        ]
    );
    assert_eq!(rows[4].class, AssetType::Unknown("bad".to_string()));
    assert_eq!(rows[0].tier.output(), "yes");
    assert_eq!(rows[3].tier.output(), "no");
    assert_eq!(rows[4].tier.output(), "?");
}

#[test]
fn rows_merge_same_path() {
    let assets = vec![
        ("/Game/A".to_string(), Ok("Blueprint".to_string())),
        ("/Game/B".to_string(), Ok("Texture2D".to_string())),
        ("/Game/A".to_string(), Ok("SoundWave".to_string())),
    ];
    let rows = verification_rows(&assets);
    assert_eq!(rows.len(), 2);
    assert_eq!(rows[0].path, "/Game/A");
    assert_eq!(rows[0].class, AssetType::Known("SoundWave".to_string()));
    assert_eq!(rows[1].path, "/Game/B");
}

#[test]
fn index_ties_order_by_path() {
    let cs = vec![
        Container { id: 1, paths: strings(&["/Game/B", "/Game/A"]) },
        Container { id: 2, paths: strings(&["/Game/D", "/Game/C"]) },
    ];
    let index = build_ownership_index(&cs);
    let paths: Vec<&str> = index.iter().map(|e| e.path.as_str()).collect();
    assert_eq!(paths, vec!["/Game/A", "/Game/B", "/Game/C", "/Game/D"]);
}

#[test]
fn shared_path_has_both_owners_once() {
    let a = || Container { id: 7, paths: strings(&["/Game/X", "/Game/Y", "/Game/X"]) };
    let b = || Container { id: 3, paths: strings(&["/Game/X"]) };
    for cs in [vec![a(), b()], vec![b(), a()]] {
        let index = build_ownership_index(&cs);
        assert_eq!(index.len(), 2);
        assert_eq!(index[0].path, "/Game/Y");
        assert_eq!(index[0].owners, vec![7]);
        assert_eq!(index[1].path, "/Game/X");
        assert_eq!(index[1].owners, vec![3, 7]);
    }
}

#[test]
fn container_paths_are_game_paths() {
    let files = strings(&["Content/A.uasset", "Content/A.uexp", "AssetRegistry.bin", "Plugins/Content/Z.uasset"]);
    assert_eq!(
        container_paths("../../../FSD/", &files).unwrap(),
        strings(&["/Game/A", "/Game/A"])
    );
    let files = strings(&["Engine/Content/E.uasset", "Engine/Plugins/P/Content/Q.uexp"]);
    assert_eq!(
        container_paths("../../../", &files).unwrap(),
        strings(&["/Engine/E", "/P/Q"])
    );
}

fn tables() -> AssetTables {
    AssetTables {
        exports: vec![
            ExportEntry { object_name: "Inner".to_string(), class_index: -3, super_index: 0, outer_index: 2 },
            ExportEntry { object_name: "BP_Thing_C".to_string(), class_index: -3, super_index: -1, outer_index: 0 },
        ],
        imports: vec![
            ImportEntry { object_name: "Actor".to_string(), outer_index: -2 },
            ImportEntry { object_name: "/Script/Engine".to_string(), outer_index: 0 },
            ImportEntry { object_name: "BlueprintGeneratedClass".to_string(), outer_index: -2 },
        ],
    }
}

#[test]
fn asset_metadata() {
    let t = tables();
    assert_eq!(get_root_export(&t), Ok(1));
    assert_eq!(get_type(&t), Ok("BlueprintGeneratedClass".to_string()));
    assert_eq!(get_full_path("/Game/Thing", &t), Ok("/Game/Thing.BP_Thing_C".to_string()));
    assert_eq!(get_parent_path(&t), Ok(Some("/Script/Engine.Actor".to_string())));
}

#[test]
fn asset_metadata_errors() {
    let mut t = tables();
    t.imports[1].outer_index = -1;
    assert_eq!(get_parent_path(&t), Err(MetaError::ImportCycle));
    let mut t = tables();
    t.exports[1].super_index = -9;
    assert_eq!(get_parent_path(&t), Err(MetaError::MissingImport));
    let mut t = tables();
    t.exports[1].class_index = 1;
    assert_eq!(get_type(&t), Err(MetaError::MissingClassImport));
    let t = AssetTables { exports: vec![], imports: vec![] };
    assert_eq!(get_root_export(&t), Err(MetaError::NoRootExport));
    assert_eq!(get_full_path("/Game/X", &t), Err(MetaError::NoRootExport));
}

#[test]
fn missing_super_import_is_not_a_cycle() {
    let mut t = tables();
    t.imports.clear();
    t.exports[1].class_index = 0;
    assert_eq!(get_parent_path(&t), Err(MetaError::MissingImport));
    let mut t = tables();
    t.imports[1].outer_index = -7;
    assert_eq!(get_parent_path(&t), Err(MetaError::MissingImport));
}

#[test]
fn unreadable_superclass_makes_asset_unknown() {
    let mut t = tables();
    t.imports[2].object_name = "Material".to_string();
    t.exports[1].super_index = -9;
    assert_eq!(get_type(&t), Ok("Material".to_string()));
    let r = record_of("/Game/Thing", &Ok(t));
    assert_eq!(r.full_path, "/Game/Thing.BP_Thing_C");
    assert_eq!(r.class_name, Err("missing import".to_string()));
    assert_eq!(r.parent, None);
    assert_eq!(classify(&r.class_name), AutoVerify::Unknown);
}

#[test]
fn records_from_tables() {
    let r = record_of("/Game/Thing", &Ok(tables()));
    assert_eq!(r.full_path, "/Game/Thing.BP_Thing_C");
    assert_eq!(r.class_name, Ok("BlueprintGeneratedClass".to_string()));
    assert_eq!(r.parent, Some("/Script/Engine.Actor".to_string()));
    let r = record_of("/Game/Bad", &Err("failed to parse asset".to_string()));
    assert_eq!(r.full_path, "/Game/Bad");
    assert_eq!(r.class_name, Err("failed to parse asset".to_string()));
    assert_eq!(r.parent, None);
}

#[test]
fn empty_container_has_empty_report() {
    let r = lint_container("../../../", &vec![]).unwrap();
    assert!(r.extraneous.is_empty());
    assert!(r.split_pairs.is_empty());
    assert!(r.pairs.is_empty());
    let (h, trees, _) = class_hierarchy(&vec![]);
    assert!(h.entries.is_empty());
    assert_eq!(render_forest(&trees, "\t"), "");
    assert!(verification_rows(&vec![]).is_empty());
    assert!(build_ownership_index(&vec![]).is_empty());
}

#[test]
fn mount_base_prefixes_member_paths() {
    let files = strings(&["Content/A.uasset"]);
    let r = lint_container("../../../FSD/Sub/", &files).unwrap();
    assert_eq!(r.split_pairs, strings(&["FSD/Sub/Content/A.uasset"]));
}
