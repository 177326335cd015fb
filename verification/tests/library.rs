use sdmm::catalog::Catalog;
use sdmm::ident::{blake3_hex, ContentHasher};
use sdmm::jobs::{JobLedger, JobState};
use sdmm::sidecar::{merge, CivitaiFileMetadata, CivitaiModel, FileVariant, Sidecar};
use sdmm::store::{page_window, Library};
use sdmm::sync::{
    file_type, get_extension_from_url, preview_disposition, registry_response_error, FileType,
    PreviewAction,
};
use sdmm::tags::{Tag, TagGraph};
use sdmm::paths::{get_relative_path, guess_saved_location, is_eligible, is_inside_base};
use sdmm::text::{lower_str, normalize_tag, split_ws, str_contains};

fn meta(format: &str) -> CivitaiFileMetadata {
    CivitaiFileMetadata {
        format: format.to_string(),
        fp: None,
        size: None,
    }
}

fn model(name: &str, mtype: &str) -> CivitaiModel {
    CivitaiModel {
        name: name.to_string(),
        nsfw: false,
        poi: false,
        model_type: mtype.to_string(),
    }
}

#[test]
fn upsert_idempotent() {
    let mut c = Catalog::new();
    let id1 = c
        .insert_or_update(Some("a.safetensors"), "a.safetensors", "main", "h1", 10)
        .unwrap();
    let id2 = c
        .insert_or_update(Some("a.safetensors"), "a.safetensors", "main", "h1", 10)
        .unwrap();
    assert_eq!(id1, id2);
    assert_eq!(c.len(), 1);
}

#[test]
fn upsert_distinct_paths() {
    let mut c = Catalog::new();
    let id1 = c.insert_or_update(None, "a", "main", "h1", 1).unwrap();
    let id2 = c.insert_or_update(None, "b", "main", "h2", 2).unwrap();
    assert_ne!(id1, id2);
    assert_eq!(c.len(), 2);
}

#[test]
fn mark_sweep_removes_missing_files() {
    let mut c = Catalog::new();
    c.insert_or_update(Some("keep"), "keep", "main", "h1", 1).unwrap();
    c.insert_or_update(Some("gone"), "gone", "main", "h2", 2).unwrap();
    c.mark_obsolete_all();
    // only "keep" is rediscovered in this generation
    c.insert_or_update(Some("keep"), "keep", "main", "h1", 3).unwrap();
    let deleted = c.clean();
    assert_eq!(deleted, 1);
    assert_eq!(c.len(), 1);
    let (items, total) = c.get(10, 0);
    assert_eq!(total, 1);
    assert_eq!(items.len(), 1);
    assert_eq!(items[0].path, "keep");
}

#[test]
fn mark_obsolete_reports_location() {
    let mut c = Catalog::new();
    let id = c.insert_or_update(Some("x"), "sub/x.ckpt", "lab", "h", 1).unwrap();
    let (path, label) = c.mark_obsolete(id).unwrap();
    assert_eq!(path, "sub/x.ckpt");
    assert_eq!(label, "lab");
    assert_eq!(c.clean(), 1);
}

#[test]
fn get_by_hash_finds_checked_record() {
    let mut c = Catalog::new();
    let id = c.insert_or_update(Some("x"), "x", "main", "abc123", 1).unwrap();
    let it = c.get_by_hash("abc123").unwrap();
    assert_eq!(it.id, id);
    assert!(c.get_by_hash("zzz").is_err());
}

#[test]
fn tag_closure_tolerates_cycles() {
    let mut lib = Library::new();
    let id = lib
        .catalog
        .insert_or_update(Some("m"), "m", "main", "h", 1)
        .unwrap();
    lib.tags.add_tag("a").unwrap();
    lib.tags.add_tag("b").unwrap();
    // a -> b and b -> a: a dependency cycle
    lib.tags
        .update_tag(&Tag {
            id: 1,
            name: "a".to_string(),
            description: String::new(),
            deps: Some("b".to_string()),
        })
        .unwrap();
    lib.tags
        .update_tag(&Tag {
            id: 2,
            name: "b".to_string(),
            description: String::new(),
            deps: Some("a".to_string()),
        })
        .unwrap();
    lib.tags
        .add_tag_item(id, &vec!["a".to_string()])
        .unwrap();
    assert!(lib.tags.has_tag_on_item(id, "a"));
    assert!(lib.tags.has_tag_on_item(id, "b"));
    // exactly {a, b}: no other tag exists, and the closure terminated
    let counts = lib.list_tags(&Vec::new());
    assert_eq!(counts.len(), 2);
}

#[test]
fn tag_closure_attaches_whole_chain() {
    let mut lib = Library::new();
    let id = lib
        .catalog
        .insert_or_update(Some("m"), "m", "main", "h", 1)
        .unwrap();
    lib.tags.add_tag("checkpoint").unwrap();
    lib.tags.add_tag("sd15").unwrap();
    lib.tags.add_tag("stable-diffusion").unwrap();
    lib.tags
        .update_tag(&Tag {
            id: 1,
            name: "checkpoint".to_string(),
            description: String::new(),
            deps: Some("sd15".to_string()),
        })
        .unwrap();
    lib.tags
        .update_tag(&Tag {
            id: 2,
            name: "sd15".to_string(),
            description: String::new(),
            deps: Some("stable-diffusion".to_string()),
        })
        .unwrap();
    lib.tags
        .add_tag_item(id, &vec!["checkpoint".to_string()])
        .unwrap();
    assert!(lib.tags.has_tag_on_item(id, "checkpoint"));
    assert!(lib.tags.has_tag_on_item(id, "sd15"));
    assert!(lib.tags.has_tag_on_item(id, "stable-diffusion"));
}

#[test]
fn replace_item_tags_is_a_full_replace() {
    let mut lib = Library::new();
    let id = lib
        .catalog
        .insert_or_update(Some("m"), "m", "main", "h", 1)
        .unwrap();
    lib.tags.add_tag_item(id, &vec!["old".to_string()]).unwrap();
    assert!(lib.tags.has_tag_on_item(id, "old"));
    lib.tags.update_tag_item(id, "NEW other").unwrap();
    assert!(!lib.tags.has_tag_on_item(id, "old"));
    assert!(lib.tags.has_tag_on_item(id, "new"));
    assert!(lib.tags.has_tag_on_item(id, "other"));
}

#[test]
fn update_tag_refuses_missing_and_conflicting() {
    let mut g = TagGraph::new();
    g.add_tag("a").unwrap();
    g.add_tag("b").unwrap();
    let missing = g.update_tag(&Tag {
        id: 99,
        name: "c".to_string(),
        description: String::new(),
        deps: None,
    });
    assert!(missing.is_err());
    let conflict = g.update_tag(&Tag {
        id: 1,
        name: "b".to_string(),
        description: String::new(),
        deps: None,
    });
    assert!(conflict.is_err());
}

#[test]
fn search_unions_name_and_tag_matches() {
    let mut lib = Library::new();
    let i1 = lib
        .catalog
        .insert_or_update(Some("best anime mix"), "i1", "main", "h1", 1)
        .unwrap();
    let i2 = lib
        .catalog
        .insert_or_update(Some("other"), "i2", "main", "h2", 2)
        .unwrap();
    lib.tags.add_tag_item(i2, &vec!["anime".to_string()]).unwrap();
    let (items, total) = lib.search("anime", 10, 0, false);
    assert_eq!(items.len(), 2);
    let ids: Vec<i64> = items.iter().map(|it| it.id).collect();
    assert!(ids.contains(&i1));
    assert!(ids.contains(&i2));
    // each record matched exactly one branch here
    assert_eq!(total, 2);
}

#[test]
fn search_total_double_counts_a_record_matching_both_branches() {
    let mut lib = Library::new();
    let i1 = lib
        .catalog
        .insert_or_update(Some("anime thing"), "i1", "main", "h1", 1)
        .unwrap();
    lib.tags.add_tag_item(i1, &vec!["anime".to_string()]).unwrap();
    let (items, total) = lib.search("anime", 10, 0, false);
    // the record appears once in the items...
    assert_eq!(items.len(), 1);
    assert_eq!(items[0].id, i1);
    // ...but both branch counts include it, so the total says two.
    assert_eq!(total, 2);
}

#[test]
fn search_tag_only_ignores_names() {
    let mut lib = Library::new();
    let i1 = lib
        .catalog
        .insert_or_update(Some("anime name"), "i1", "main", "h1", 1)
        .unwrap();
    let i2 = lib
        .catalog
        .insert_or_update(Some("plain"), "i2", "main", "h2", 2)
        .unwrap();
    lib.tags.add_tag_item(i2, &vec!["anime".to_string()]).unwrap();
    let (items, total) = lib.search("anime", 10, 0, true);
    assert_eq!(items.len(), 1);
    assert_eq!(items[0].id, i2);
    assert_eq!(total, 1);
    let _ = i1;
}

#[test]
fn search_requires_every_token() {
    let mut lib = Library::new();
    let i1 = lib
        .catalog
        .insert_or_update(Some("m1"), "i1", "main", "h1", 1)
        .unwrap();
    let i2 = lib
        .catalog
        .insert_or_update(Some("m2"), "i2", "main", "h2", 2)
        .unwrap();
    lib.tags
        .add_tag_item(i1, &vec!["anime".to_string(), "lora".to_string()])
        .unwrap();
    lib.tags.add_tag_item(i2, &vec!["anime".to_string()]).unwrap();
    let (items, _) = lib.search("anime lora", 10, 0, true);
    assert_eq!(items.len(), 1);
    assert_eq!(items[0].id, i1);
}

#[test]
fn merge_selects_variant_by_disk_hash() {
    let sidecar = Sidecar {
        base_model: "SD 1.5".to_string(),
        files: vec![
            FileVariant {
                hash_blake3: "H1AAAA".to_string(),
                metadata: meta("SafeTensor"),
            },
            FileVariant {
                hash_blake3: "H2BBBB".to_string(),
                metadata: meta("PickleTensor"),
            },
        ],
    };
    let (hash, m) = merge(&sidecar, Some("h2bbbb"));
    assert_eq!(hash, "h2bbbb");
    assert_eq!(m.format, "PickleTensor");
}

#[test]
fn merge_single_variant_uses_it_directly() {
    let sidecar = Sidecar {
        base_model: "SD 1.5".to_string(),
        files: vec![FileVariant {
            hash_blake3: "ABCDEF".to_string(),
            metadata: meta("SafeTensor"),
        }],
    };
    let (hash, m) = merge(&sidecar, None);
    assert_eq!(hash, "abcdef");
    assert_eq!(m.format, "SafeTensor");
}

#[test]
fn merge_empty_sidecar_yields_defaults() {
    let sidecar = Sidecar {
        base_model: String::new(),
        files: Vec::new(),
    };
    let (hash, m) = merge(&sidecar, None);
    assert_eq!(hash, "");
    assert_eq!(m.format, "");
    assert!(m.fp.is_none());
    assert!(m.size.is_none());
}

#[test]
fn merge_falls_back_to_first_variant_without_match() {
    let sidecar = Sidecar {
        base_model: String::new(),
        files: vec![
            FileVariant {
                hash_blake3: "H1".to_string(),
                metadata: meta("first"),
            },
            FileVariant {
                hash_blake3: "H2".to_string(),
                metadata: meta("second"),
            },
        ],
    };
    let (hash, m) = merge(&sidecar, Some("nomatch"));
    assert_eq!(hash, "nomatch");
    assert_eq!(m.format, "first");
}

#[test]
fn hashing_is_stable_and_sensitive() {
    let d1 = blake3_hex(b"model bytes");
    let d2 = blake3_hex(b"model bytes");
    assert_eq!(d1, d2);
    assert_eq!(d1.len(), 64);
    let d3 = blake3_hex(b"model byteZ");
    assert_ne!(d1, d3);
}

#[test]
fn streaming_hash_equals_whole_hash() {
    let mut h = ContentHasher::new();
    h.update(b"model ");
    h.update(b"bytes");
    assert_eq!(h.finalize_hex(), blake3_hex(b"model bytes"));
}

#[test]
fn end_to_end_scan_and_tag_search() {
    let mut lib = Library::new();
    // scan an empty root: nothing recorded, the sweep removes nothing
    let job = lib.scan_begin(100).unwrap();
    lib.scan_finish(job, 101);
    assert_eq!(lib.remove_orphans(), 0);
    // one eligible file with a sidecar {"baseModel":"SD1.5","model":{"name":"X","type":"LORA"}}
    let job = lib.scan_begin(200).unwrap();
    let sidecar = Sidecar {
        base_model: "SD1.5".to_string(),
        files: Vec::new(),
    };
    let (hash, fm) = merge(&sidecar, None);
    let id = lib
        .record_file(
            "x.safetensors",
            "x.safetensors",
            "main",
            "SD1.5",
            &model("X", "LORA"),
            &fm,
            &hash,
            201,
        )
        .unwrap();
    lib.scan_finish(job, 202);
    let (items, total) = lib.search("lora", 10, 0, true);
    assert_eq!(items.len(), 1);
    assert_eq!(items[0].id, id);
    assert_eq!(total, 1);
    let counts = lib.list_tags(&Vec::new());
    let lora = counts.iter().find(|c| c.tag == "lora").unwrap();
    assert_eq!(lora.count, 1);
}

#[test]
fn normalization_lowercases_and_underscores() {
    assert_eq!(normalize_tag("SD 1.5"), "sd_1.5");
    assert_eq!(normalize_tag("LORA"), "lora");
    assert_eq!(lower_str("MiXeD"), "mixed");
}

#[test]
fn whitespace_split_finds_tokens() {
    let toks = split_ws("  one\ttwo \n three ");
    assert_eq!(toks, vec!["one", "two", "three"]);
    assert!(split_ws("   ").is_empty());
}

#[test]
fn substring_search_is_case_insensitive_via_lowering() {
    assert!(str_contains("hello world", "lo wo"));
    assert!(!str_contains("hello", "world"));
    assert!(str_contains("anything", ""));
}

#[test]
fn url_extension_extraction() {
    assert_eq!(
        get_extension_from_url("https://example.com/a/b/image.jpeg"),
        Some("jpeg".to_string())
    );
    assert_eq!(get_extension_from_url("https://example.com/a/b/archive"), None);
    assert_eq!(get_extension_from_url("https://example.com/a/.hidden"), None);
    assert_eq!(
        get_extension_from_url("https://example.com/v.mp4?width=1"),
        Some("mp4?width=1".to_string())
    );
}

#[test]
fn preview_dispositions() {
    assert_eq!(
        preview_disposition(FileType::Video, false),
        PreviewAction::MakeVideoThumbnail
    );
    assert_eq!(
        preview_disposition(FileType::Image, false),
        PreviewAction::RenameToCanonical
    );
    assert_eq!(preview_disposition(FileType::Image, true), PreviewAction::Keep);
    assert_eq!(preview_disposition(FileType::NA, true), PreviewAction::Keep);
}

#[test]
fn file_type_detects_jpeg_bytes() {
    // a minimal JPEG magic prefix
    let jpeg: Vec<u8> = vec![0xFF, 0xD8, 0xFF, 0xE0, 0x00, 0x10, 0x4A, 0x46, 0x49, 0x46, 0x00];
    assert_eq!(file_type(&jpeg), FileType::Image);
    assert_eq!(file_type(b"plain text"), FileType::NA);
}

#[test]
fn registry_error_detection() {
    assert_eq!(registry_response_error(None), None);
    assert_eq!(registry_response_error(Some("")), None);
    assert_eq!(
        registry_response_error(Some("no such hash")),
        Some("no such hash".to_string())
    );
}

#[test]
fn job_ledger_lifecycle() {
    let mut j = JobLedger::new();
    let id = j.add_job("Scan folder", "", 100).unwrap();
    j.update_job(id, "", JobState::Succeed, 110).unwrap();
    let (jobs, total) = j.get(10, 0);
    assert_eq!(total, 1);
    assert_eq!(jobs.len(), 1);
    assert_eq!(jobs[0].state, JobState::Succeed.code());
    assert_eq!(jobs[0].stopped_at, Some(110));
    // a still-running job survives the clear of finished jobs
    let id2 = j.add_job("Sync", "", 120).unwrap();
    assert_eq!(j.clean(), 1);
    let (jobs, total) = j.get(10, 0);
    assert_eq!(total, 1);
    assert_eq!(jobs[0].id, id2);
    assert_eq!(jobs[0].stopped_at, None);
}

#[test]
fn paging_window_matches_the_request_shape() {
    assert_eq!(page_window(None, None, 20), (20, 0));
    assert_eq!(page_window(Some(2), Some(10), 20), (10, 10));
    assert_eq!(page_window(Some(0), Some(-5), 20), (0, 0));
    assert_eq!(page_window(Some(3), None, 7), (7, 14));
}

#[test]
fn listing_orders_by_recency() {
    let mut c = Catalog::new();
    c.insert_or_update(Some("old"), "old", "main", "h1", 100).unwrap();
    c.insert_or_update(Some("new"), "new", "main", "h2", 200).unwrap();
    let (items, total) = c.get(10, 0);
    assert_eq!(total, 2);
    assert_eq!(items[0].path, "new");
    assert_eq!(items[1].path, "old");
    let (page2, _) = c.get(1, 1);
    assert_eq!(page2.len(), 1);
    assert_eq!(page2[0].path, "old");
}

#[test]
fn note_update_sticks() {
    let mut c = Catalog::new();
    let id = c.insert_or_update(Some("x"), "x", "main", "h", 1).unwrap();
    c.update_item_note(id, "a fine model").unwrap();
    let it = c.get_by_id(id).unwrap();
    assert_eq!(it.note, "a fine model");
}

#[test]
fn derived_tags_cover_registry_fields() {
    let mut lib = Library::new();
    let id = lib
        .catalog
        .insert_or_update(Some("m"), "m", "main", "h", 1)
        .unwrap();
    let mut m = model("X", "Check Point");
    m.nsfw = true;
    let mut fm = meta("SafeTensor");
    fm.fp = Some("fp16".to_string());
    lib.tags
        .add_tag_from_model_info(id, &vec!["SD 1.5".to_string()], &m, &fm)
        .unwrap();
    assert!(lib.tags.has_tag_on_item(id, "sd_1.5"));
    assert!(lib.tags.has_tag_on_item(id, "check_point"));
    assert!(lib.tags.has_tag_on_item(id, "nsfw"));
    assert!(!lib.tags.has_tag_on_item(id, "poi"));
    assert!(lib.tags.has_tag_on_item(id, "safetensor"));
    assert!(lib.tags.has_tag_on_item(id, "fp16"));
}

#[test]
fn relative_paths_strip_the_root() {
    assert_eq!(
        get_relative_path("/data/models", "/data/models/sub/x.ckpt").unwrap(),
        "sub/x.ckpt"
    );
    assert!(get_relative_path("/other", "/data/models/x.ckpt").is_err());
}

#[test]
fn saved_location_guesses() {
    assert_eq!(guess_saved_location("/m", "LORA"), "/m/loras");
    assert_eq!(guess_saved_location("/m", "checkpoint"), "/m/checkpoints");
    assert_eq!(guess_saved_location("/m", "Hypernetwork"), "/m/hypernetworks");
    assert_eq!(guess_saved_location("/m", "TextualInversion"), "/m/textualinversion");
}

#[test]
fn eligibility_and_base_checks() {
    let allowed = vec!["safetensors".to_string(), "ckpt".to_string()];
    assert!(is_eligible("ckpt", &allowed));
    assert!(!is_eligible("txt", &allowed));
    let bases = vec![("main".to_string(), "/data/models".to_string())];
    assert!(is_inside_base("/data/models/x", &bases));
    assert!(!is_inside_base("/tmp/x", &bases));
}

#[test]
fn tag_detail_joins_dependency_names() {
    let mut g = TagGraph::new();
    g.add_tag("checkpoint").unwrap();
    g.update_tag(&Tag {
        id: 1,
        name: "checkpoint".to_string(),
        description: "base models".to_string(),
        deps: Some("sd15 stable-diffusion".to_string()),
    })
    .unwrap();
    let detail = g.get_tag_by_name("checkpoint").unwrap();
    assert_eq!(detail.id, 1);
    assert_eq!(detail.description, "base models");
    assert_eq!(detail.deps, Some("sd15 stable-diffusion".to_string()));
    let leaf = g.get_tag_by_name("sd15").unwrap();
    assert_eq!(leaf.deps, None);
    assert!(g.get_tag_by_name("missing").is_err());
}

#[test]
fn tag_delete_cascades() {
    let mut lib = Library::new();
    let id = lib
        .catalog
        .insert_or_update(Some("m"), "m", "main", "h", 1)
        .unwrap();
    lib.tags
        .add_tag_item(id, &vec!["a".to_string(), "b".to_string()])
        .unwrap();
    lib.tags
        .update_tag(&Tag {
            id: 1,
            name: "a".to_string(),
            description: String::new(),
            deps: Some("b".to_string()),
        })
        .unwrap();
    lib.tags.delete(2);
    assert!(lib.tags.has_tag_on_item(id, "a"));
    assert!(!lib.tags.has_tag_on_item(id, "b"));
    assert!(lib.tags.get_tag_by_name("b").is_err());
    let a = lib.tags.get_tag_by_name("a").unwrap();
    assert_eq!(a.deps, None);
}

#[test]
fn relative_path_respects_component_boundaries() {
    assert!(get_relative_path("/a", "/ab/c").is_err());
    assert_eq!(get_relative_path("/a", "/a/b").unwrap(), "b");
    assert_eq!(get_relative_path("/a/", "/a/b").unwrap(), "b");
}

#[test]
fn digest_is_lowercase_hex() {
    let d = blake3_hex(b"content");
    assert!(d.chars().all(|c| c.is_ascii_hexdigit() && !c.is_ascii_uppercase()));
}

#[test]
fn scan_begin_brackets_a_job() {
    let mut lib = Library::new();
    let job = lib.scan_begin(500).unwrap();
    let (jobs, total) = lib.jobs.get(10, 0);
    assert_eq!(total, 1);
    assert_eq!(jobs[0].id, job);
    assert_eq!(jobs[0].title, "Scan folder");
    assert_eq!(jobs[0].state, JobState::Running.code());
    assert_eq!(jobs[0].started_at, 500);
    assert_eq!(jobs[0].stopped_at, None);
    lib.scan_finish(job, 510);
    let (jobs, _) = lib.jobs.get(10, 0);
    assert_eq!(jobs[0].state, JobState::Succeed.code());
    assert_eq!(jobs[0].stopped_at, Some(510));
}

#[test]
fn update_item_sets_tags_and_note() {
    let mut lib = Library::new();
    let id = lib
        .catalog
        .insert_or_update(Some("m"), "m", "main", "h", 1)
        .unwrap();
    lib.update_item(id, "style anime", "keeper").unwrap();
    assert!(lib.tags.has_tag_on_item(id, "style"));
    assert!(lib.tags.has_tag_on_item(id, "anime"));
    assert_eq!(lib.catalog.get_by_id(id).unwrap().note, "keeper");
}
