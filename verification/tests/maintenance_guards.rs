//! The debris of a collection: found, repaired, and gone.
use libsearch::maintenance::{scan, variant_of, Evidence, StoredFormat, Variant};
use libsearch::manifest::Db;
use libsearch::repair::{apply, run_step, Fixes, FixStep};
use libsearch::types::Collection;

fn p(name: &str) -> String {
    format!("/books/{name}")
}

fn stored(rows: &[(&str, String, &str)]) -> Evidence {
    let present = ["alive.pdf", "twin.pdf", "twin.docx", "solo.md"];
    let mut ids: Vec<String> = Vec::new();
    for (id, _, _) in rows {
        if !ids.contains(&id.to_string()) {
            ids.push(id.to_string());
        }
    }
    Evidence {
        pairs: rows
            .iter()
            .map(|(id, path, _)| (id.to_string(), path.clone()))
            .collect(),
        ids,
        formats: rows
            .iter()
            .map(|(id, path, f)| StoredFormat {
                book_id: id.to_string(),
                path: path.clone(),
                format: f.to_string(),
            })
            .collect(),
        present: present.iter().map(|n| p(n)).collect(),
        unreachable: vec!["/unmounted".to_string()],
        variants: rows
            .iter()
            .filter_map(|(_, path, _)| variant_of(path))
            .collect(),
    }
}

#[test]
fn maintenance_scans_and_fixes_all_four_classes() {
    let mut rows: Vec<(&str, String, &str)> = vec![
        ("legacy-alive", p("alive.pdf"), "pdf"),
        ("stable-alive", p("alive.pdf"), "pdf"),
        ("gone-1", p("gone.pdf"), "pdf"),
        ("twin-pdf-id", p("twin.pdf"), "pdf"),
        ("twin-docx-id", p("twin.docx"), "docx"),
        ("solo-md", p("solo.md"), "pdf"),
    ];
    let mut db = Db::open_in_memory().unwrap();
    let coll = Collection {
        id: "c".into(),
        name: "Test".into(),
        db_path: "/lancedb".into(),
        source_paths: vec!["/books".into(), "/unmounted".into()],
        embed_model: "bge-m3".into(),
    };
    db.set_book_state(&coll.id, "legacy-alive", "1:1", "sig-a", &p("alive.pdf"))
        .unwrap();
    db.set_book_state(&coll.id, "gone-1", "1:1", "sig-g", &p("gone.pdf"))
        .unwrap();
    db.set_book_state(&coll.id, "ghost-1", "1:1", "sig-h", &p("ghost.pdf"))
        .unwrap();

    let evidence = stored(&rows);
    let report = scan(&evidence, &db, &coll);

    assert_eq!(report.orphans.len(), 2, "{:?}", report.orphans);
    assert!(report
        .orphans
        .iter()
        .any(|o| o.path.ends_with("gone.pdf") && o.kind == "store"));
    assert!(report
        .orphans
        .iter()
        .any(|o| o.path.ends_with("ghost.pdf") && o.kind == "manifest"));

    assert_eq!(report.bad_stamps.len(), 1, "{:?}", report.bad_stamps);
    assert_eq!(report.bad_stamps[0].from, "pdf");
    assert_eq!(report.bad_stamps[0].to, "md");

    assert_eq!(report.dup_variants.len(), 1, "{:?}", report.dup_variants);
    assert!(report.dup_variants[0].keep_path.ends_with("twin.pdf"));
    assert_eq!(report.dup_variants[0].remove.len(), 1);
    assert!(report.dup_variants[0].remove[0].path.ends_with("twin.docx"));

    assert_eq!(report.multi_id.len(), 1, "{:?}", report.multi_id);
    assert_eq!(report.multi_id[0].keep_id, "legacy-alive");
    assert_eq!(
        report.multi_id[0].remove_ids,
        vec!["stable-alive".to_string()]
    );

    assert_eq!(report.unreachable_roots.len(), 1);

    let fixes = Fixes {
        orphans: true,
        stamps: true,
        dups: true,
        multi: true,
    };
    let repair = apply(&report, &evidence.pairs, fixes);
    let out = &repair.outcome;
    assert!(out.orphans_removed >= 2, "{out:?}");
    assert_eq!(out.restamped, 1, "{out:?}");
    assert_eq!(out.dup_rows_removed, 1, "{out:?}");
    assert_eq!(out.multi_id_removed, 1, "{out:?}");

    for step in &repair.steps {
        run_step(&mut db, &coll.id, step);
        match step {
            FixStep::Restamp { to, ids } => {
                assert_eq!(ids, &vec!["solo-md".to_string()]);
                assert_eq!(to, "md");
                for r in rows.iter_mut() {
                    if ids.contains(&r.0.to_string()) {
                        r.2 = "md";
                    }
                }
            }
            FixStep::RemovePath { ids, .. } | FixStep::DropIds { ids } => {
                rows.retain(|r| !ids.contains(&r.0.to_string()))
            }
            _ => {}
        }
    }

    let ids: Vec<&str> = rows.iter().map(|r| r.0).collect();
    assert!(ids.contains(&"legacy-alive"));
    assert!(ids.contains(&"twin-pdf-id"));
    assert!(ids.contains(&"solo-md"));
    assert!(!ids.contains(&"stable-alive"));
    assert!(!ids.contains(&"gone-1"));
    assert!(!ids.contains(&"twin-docx-id"));

    assert!(db
        .book_id_for_source_path(&coll.id, &p("alive.pdf"))
        .unwrap()
        .is_some());
    let state = db.book_state_rows(&coll.id).unwrap();
    assert!(!state
        .iter()
        .any(|(id, _)| id == "gone-1" || id == "ghost-1"));

    let again = scan(&stored(&rows), &db, &coll);
    assert!(again.orphans.is_empty(), "{:?}", again.orphans);
    assert!(again.bad_stamps.is_empty(), "{:?}", again.bad_stamps);
    assert!(again.dup_variants.is_empty(), "{:?}", again.dup_variants);
    assert!(again.multi_id.is_empty(), "{:?}", again.multi_id);
}

#[test]
fn variants_differ_in_the_extension_only() {
    let v = |path: &str| variant_of(path).map(|v| (v.key, v.rank));
    assert_eq!(v("/lib/twin.pdf"), Some(("/lib/twin".into(), 0)));
    assert_eq!(v("/lib/twin.DOCX"), Some(("/lib/twin".into(), 6)));
    assert_eq!(v("/lib/a.fb2.zip"), Some(("/lib/a".into(), 10)));
    assert_eq!(v("/lib/a.tar.gz"), None);
    assert_eq!(
        variant_of("/lib/a.md"),
        Some(Variant {
            path: "/lib/a.md".into(),
            key: "/lib/a".into(),
            rank: 3
        })
    );
}
