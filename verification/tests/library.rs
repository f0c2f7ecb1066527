//! Files: formats, identities, discovery and cloud drives.
use libsearch::discover::{cloud_sync_provider, discover_books, Listing};
use libsearch::extract::clean_text;
use libsearch::formats::{
    ext_of, gen_supported_exts_ts, is_supported, supported_exts_display, Format, INGEST_EXTS,
    KNOWN_EXTS,
};
use libsearch::ids::{
    caps_hash, content_signature, file_fingerprint, stable_book_id, title_from_path, FileSample,
    FileStat,
};
use libsearch::service::cpu_caps_ver;

#[test]
fn format_roundtrips_through_ext() {
    assert_eq!(Format::from_ext("PDF"), Some(Format::Pdf));
    assert_eq!(Format::from_ext("epub"), Some(Format::Epub));
    assert_eq!(Format::from_ext("txt"), Some(Format::Txt));
    assert_eq!(Format::Pdf.as_str(), "pdf");
    for f in Format::ALL {
        assert_eq!(Format::from_ext(f.as_str()), Some(f), "{f:?} round-trip");
    }
}

#[test]
fn ext_of_longest_match_and_negatives() {
    assert_eq!(ext_of("Мастер и Маргарита.fb2.zip"), Some("fb2.zip"));
    assert_eq!(
        ext_of("/lib/у папки.с точкой/book.FB2.ZIP"),
        Some("fb2.zip")
    );
    assert_eq!(ext_of("notes.tar.gz"), None);
    assert_eq!(ext_of("a.md"), Some("md"));
    assert_eq!(ext_of("a.MARKDOWN"), Some("markdown"));
    assert_eq!(ext_of("weird.pdf.txt"), Some("txt"));
    assert_eq!(ext_of("noext"), None);
    assert_eq!(ext_of(".md"), None);
    assert_eq!(ext_of("C:\\books\\a.docx"), Some("docx"));
    assert_eq!(Format::from_path("l.ipynb"), Some(Format::Md));
    assert_eq!(Format::from_path("b.azw3"), Some(Format::Mobi));
    assert_eq!(Format::from_path("b.fb2.zip"), Some(Format::Fb2));
    assert_eq!(Format::from_path("b.rst"), Some(Format::Txt));
}

#[test]
fn ingest_exts_is_a_subset_of_known() {
    for e in INGEST_EXTS {
        assert!(KNOWN_EXTS.contains(&e), "{e} must be in KNOWN_EXTS");
        assert!(Format::from_ext(e).is_some(), "{e} must map to a Format");
    }
}

#[test]
fn generated_frontend_ext_map_is_fresh() {
    let ts = gen_supported_exts_ts();
    let known: Vec<String> = KNOWN_EXTS.iter().map(|e| format!("\"{e}\"")).collect();
    let ingest: Vec<String> = INGEST_EXTS.iter().map(|e| format!("\"{e}\"")).collect();
    assert!(ts.starts_with("// GENERATED from ls-core by `cargo run -p ls-cli -- gen-exts`. DO NOT EDIT:\n"));
    assert!(ts.contains(&format!(
        "export const KNOWN_EXTS = [{}] as const;\n",
        known.join(", ")
    )));
    assert!(ts.contains(&format!(
        "export const INGEST_EXTS = [{}] as const;\n",
        ingest.join(", ")
    )));
    for e in KNOWN_EXTS {
        let family = Format::from_ext(e).unwrap().as_str();
        assert!(ts.contains(&format!("\"{e}\": \"{family}\"")), "{e}: {ts}");
    }
    assert!(ts.ends_with("  return best;\n}\n"));
}

#[test]
fn clean_text_dehyphenates_and_collapses() {
    assert_eq!(clean_text("encyclo-\npedia"), "encyclopedia");
    assert_eq!(clean_text("a   b\t c"), "a b c");
}

#[test]
fn clean_text_keeps_one_empty_line() {
    assert_eq!(clean_text("  a\n\n\n\nb  "), "a\n\nb");
}

#[test]
fn book_id_is_stable_per_path() {
    let a = stable_book_id("/lib/x.pdf");
    let b = stable_book_id("/lib/x.pdf");
    let c = stable_book_id("/lib/y.pdf");
    assert_eq!(a, b);
    assert_ne!(a, c);
    assert_eq!(a.len(), 16);
}

#[test]
fn title_from_stem() {
    assert_eq!(
        title_from_path("/lib/Kotlin in Depth.pdf"),
        "Kotlin in Depth"
    );
}

#[test]
fn titles_of_odd_paths() {
    assert_eq!(title_from_path("/lib/.hidden"), ".hidden");
    assert_eq!(title_from_path("/lib/a.tar.gz"), "a.tar");
    assert_eq!(title_from_path("/lib/.."), "Untitled");
    assert_eq!(title_from_path("/"), "Untitled");
}

#[test]
fn discovers_supported_files_recursively_and_dedups() {
    let listings = vec![
        Listing::Directory(vec![
            "/root/a.pdf".into(),
            "/root/notes.txt".into(),
            "/root/archive.tar.gz".into(),
            "/root/book.epub".into(),
            "/root/sub/b.PDF".into(),
            "/root/sub/l.MD".into(),
        ]),
        Listing::File("/root/a.pdf".into()),
    ];
    let found = discover_books(&listings);
    assert_eq!(found.len(), 4, "got {found:?}");
    assert!(found.iter().any(|p| p.ends_with("a.pdf")));
    assert!(found.iter().any(|p| p.ends_with("sub/b.PDF")));
    assert!(found.iter().any(|p| p.ends_with("notes.txt")));
    assert!(found.iter().any(|p| p.ends_with("sub/l.MD")));
    assert!(!found.iter().any(|p| p.ends_with("archive.tar.gz")));
    assert!(!found.iter().any(|p| p.ends_with("book.epub")));
    let mut sorted = found.clone();
    sorted.sort();
    assert_eq!(found, sorted);
}

#[test]
fn missing_path_yields_nothing() {
    assert!(discover_books(&[Listing::Missing]).is_empty());
}

#[test]
fn flags_cloud_mounts_not_local_paths() {
    assert_eq!(
        cloud_sync_provider("/Users/x/Dropbox/libsearch/lancedb"),
        Some("Dropbox")
    );
    assert_eq!(
        cloud_sync_provider("/Users/x/Library/Mobile Documents/com~apple~CloudDocs/lib"),
        Some("iCloud Drive")
    );
    assert_eq!(
        cloud_sync_provider("/Users/x/Library/CloudStorage/GoogleDrive-a/lib"),
        Some("a cloud drive (File Provider)")
    );
    assert_eq!(
        cloud_sync_provider("/Users/x/.local/share/libsearch-studio/lancedb"),
        None
    );
}

#[test]
fn fingerprint_changes_with_file() {
    let fp1 = file_fingerprint(Some(FileStat { len: 5, mtime: 7 }));
    let fp2 = file_fingerprint(Some(FileStat { len: 18, mtime: 7 }));
    assert_ne!(fp1, fp2);
    assert_eq!(fp1, "5:7");
    assert_eq!(file_fingerprint(None), "missing");
}

fn sample(bytes: &[u8]) -> FileSample {
    FileSample {
        len: bytes.len() as u64,
        head: Some(bytes.to_vec()),
        tail: None,
    }
}

#[test]
fn content_signature_is_path_and_time_independent() {
    let a = content_signature(Some(&sample(b"the same bytes in both files")));
    let b = content_signature(Some(&sample(b"the same bytes in both files")));
    assert_eq!(a, b);
    let c = content_signature(Some(&sample(b"different bytes entirely here")));
    assert_ne!(a, c);
    assert_eq!(content_signature(None), "missing");
}

#[test]
fn partial_reads_give_no_signature() {
    let cut = FileSample {
        len: 100,
        head: Some(vec![1; 50]),
        tail: None,
    };
    assert_eq!(content_signature(Some(&cut)), "missing");
    let unread = FileSample {
        len: 100,
        head: None,
        tail: None,
    };
    assert_eq!(content_signature(Some(&unread)), "missing");
    let long = FileSample {
        len: 3 * 262144,
        head: Some(vec![1; 262144]),
        tail: Some(vec![2; 10]),
    };
    assert_eq!(content_signature(Some(&long)), "missing");
}

#[test]
fn installing_a_converter_changes_cpu_caps_ver() {
    let without = cpu_caps_ver(&[false; 5]);
    let with = cpu_caps_ver(&[false, false, false, true, false]);
    assert_ne!(
        without, with,
        "cpu_caps_ver ignored a PATH change — best-effort skips would never retry"
    );
    let without_again = cpu_caps_ver(&[false; 5]);
    assert_eq!(without, without_again, "caps hash must be deterministic");
}

#[test]
fn caps_hash_tells_parts_apart() {
    assert_ne!(caps_hash(&["ab", "c"]), caps_hash(&["a", "bc"]));
    assert_eq!(caps_hash(&["a", "b"]).len(), 16);
}

#[test]
fn supported_files_and_their_display() {
    assert!(is_supported("/x/a.PDF"));
    assert!(!is_supported("/x/a.epub"));
    assert!(supported_exts_display().contains("pdf"));
}
