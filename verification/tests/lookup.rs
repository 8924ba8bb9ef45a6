use notes_core::{
    climb_from, created_folder, index_folders, match_candidates, missing_folder_error, same_texts,
    select_single, split_note_slug, split_path, AppError, CandidateMatch, CreateFolderData,
    FolderBranch, NoteFromSlug, Walked,
};

fn folder(id: u128, parent: Option<u128>, slug: &str) -> FolderBranch {
    FolderBranch {
        id_folder: id,
        folder_name: slug.to_uppercase(),
        parent_id: parent,
        folder_slug: slug.to_string(),
    }
}

fn cand(id_note: u128, id_folder: u128) -> NoteFromSlug {
    NoteFromSlug { id_note, id_folder, slug: "ma-note".to_string() }
}

fn strings(v: &[&str]) -> Vec<String> {
    v.iter().map(|s| s.to_string()).collect()
}

fn tree() -> Vec<FolderBranch> {
    vec![
        folder(1, None, "docs"),
        folder(2, Some(1), "rust"),
        folder(3, Some(1), "verus"),
        folder(4, Some(2), "async"),
    ]
}

#[test]
fn split_path_cuts_at_each_slash() {
    assert_eq!(split_path("docs/rust/ma-note"), strings(&["docs", "rust", "ma-note"]));
    assert_eq!(split_path("ma-note"), strings(&["ma-note"]));
    assert_eq!(split_path(""), strings(&[""]));
    assert_eq!(split_path("/a//b/"), strings(&["", "a", "", "b", ""]));
    assert_eq!(split_path("été/ß"), strings(&["été", "ß"]));
}

#[test]
fn split_path_joins_back() {
    for p in ["a/b/c", "", "/", "//x", "é/è/", "plain"] {
        assert_eq!(split_path(p).join("/"), p);
        assert!(split_path(p).iter().all(|s| !s.contains('/')));
        assert!(!split_path(p).is_empty());
    }
}

#[test]
fn split_note_slug_takes_last_segment() {
    let (folders, slug) = split_note_slug(strings(&["docs", "rust", "ma-note"])).ok().unwrap();
    assert_eq!(folders, strings(&["docs", "rust"]));
    assert_eq!(slug, "ma-note");
    let (folders, slug) = split_note_slug(strings(&["seule"])).ok().unwrap();
    assert!(folders.is_empty());
    assert_eq!(slug, "seule");
}

#[test]
fn split_note_slug_refuses_empty_path() {
    match split_note_slug(Vec::new()) {
        Err(AppError::NotFound(m)) => assert_eq!(m, "Non autorisé"),
        _ => panic!("an empty path must be refused"),
    }
}

#[test]
fn request_path_always_has_a_slug() {
    for p in ["", "/", "a", "a/b"] {
        assert!(split_note_slug(split_path(p)).is_ok());
    }
}

#[test]
fn climb_gives_slugs_top_first() {
    let folders = tree();
    let index = index_folders(&folders);
    assert_eq!(index.len(), 4);
    match climb_from(&folders, &index, 4) {
        Walked::Slugs(s) => assert_eq!(s, strings(&["docs", "rust", "async"])),
        _ => panic!("expected slugs"),
    }
    match climb_from(&folders, &index, 1) {
        Walked::Slugs(s) => assert_eq!(s, strings(&["docs"])),
        _ => panic!("expected slugs"),
    }
    assert!(matches!(climb_from(&folders, &index, 99), Walked::Missing));
}

#[test]
fn candidate_in_requested_folder_matches() {
    let r = match_candidates(&strings(&["docs", "rust"]), &vec![cand(10, 2), cand(11, 3)], &tree());
    assert_eq!(r, vec![CandidateMatch::Matches(10), CandidateMatch::Skipped]);
}

#[test]
fn no_candidate_gives_no_outcome() {
    assert!(match_candidates(&strings(&["docs"]), &Vec::new(), &tree()).is_empty());
}

#[test]
fn top_level_note_matches_empty_folder_path() {
    let folders = tree();
    let r = match_candidates(&Vec::new(), &vec![cand(10, 1)], &folders);
    assert_eq!(r, vec![CandidateMatch::Skipped]);
    let r = match_candidates(&strings(&["docs"]), &vec![cand(10, 1)], &folders);
    assert_eq!(r, vec![CandidateMatch::Matches(10)]);
}

#[test]
fn missing_folder_stops_the_lookup() {
    let mut folders = tree();
    folders.push(folder(5, Some(77), "orphan"));
    let r = match_candidates(
        &strings(&["docs"]),
        &vec![cand(10, 1), cand(11, 5), cand(12, 1)],
        &folders,
    );
    assert_eq!(r, vec![CandidateMatch::Matches(10), CandidateMatch::FolderMissing]);
    match missing_folder_error() {
        AppError::NotFound(m) => assert_eq!(m, "Dossier introuvable"),
        _ => panic!("wrong error"),
    }
}

#[test]
fn looping_parents_are_reported() {
    let folders = vec![folder(1, Some(2), "a"), folder(2, Some(1), "b"), folder(3, None, "c")];
    let r = match_candidates(&strings(&["c"]), &vec![cand(10, 3), cand(11, 1), cand(12, 3)], &folders);
    assert_eq!(r, vec![CandidateMatch::Matches(10), CandidateMatch::FolderLoop]);
    let index = index_folders(&folders);
    assert!(matches!(climb_from(&folders, &index, 2), Walked::Unfinished));
}

#[test]
fn self_parent_loops() {
    let folders = vec![folder(1, Some(1), "a")];
    let r = match_candidates(&strings(&["a"]), &vec![cand(10, 1)], &folders);
    assert_eq!(r, vec![CandidateMatch::FolderLoop]);
}

#[test]
fn last_folder_with_an_id_counts() {
    let folders = vec![folder(1, None, "old"), folder(1, None, "new")];
    let r = match_candidates(&strings(&["new"]), &vec![cand(10, 1)], &folders);
    assert_eq!(r, vec![CandidateMatch::Matches(10)]);
    let r = match_candidates(&strings(&["old"]), &vec![cand(10, 1)], &folders);
    assert_eq!(r, vec![CandidateMatch::Skipped]);
}

#[test]
fn several_matches_are_all_listed() {
    let folders = vec![folder(1, None, "x"), folder(2, None, "x")];
    let r = match_candidates(&strings(&["x"]), &vec![cand(10, 1), cand(11, 2)], &folders);
    assert_eq!(r, vec![CandidateMatch::Matches(10), CandidateMatch::Matches(11)]);
}

#[test]
fn select_single_needs_exactly_one() {
    assert_eq!(select_single(vec![7]).ok(), Some(7));
    match select_single::<u8>(Vec::new()) {
        Err(AppError::NotFound(m)) => assert_eq!(m, "Aucun résultat trouve"),
        _ => panic!("no note must be NotFound"),
    }
    match select_single(vec![1, 2]) {
        Err(AppError::Unauthorized(m)) => assert_eq!(m, "Plusieurs résultats trouvés"),
        _ => panic!("several notes must be Unauthorized"),
    }
}

#[test]
fn same_texts_compares_in_order() {
    assert!(same_texts(&strings(&["a", "b"]), &strings(&["a", "b"])));
    assert!(!same_texts(&strings(&["a", "b"]), &strings(&["b", "a"])));
    assert!(!same_texts(&strings(&["a"]), &strings(&["a", "b"])));
    assert!(same_texts(&Vec::new(), &Vec::new()));
}

#[test]
fn created_folder_keeps_the_data() {
    let f = created_folder(CreateFolderData {
        id_folder: 42,
        folder_name: "Dossier de test".to_string(),
        folder_slug: "dossier-de-test".to_string(),
        parent_id: Some(7),
    });
    assert_eq!(f.id_folder, 42);
    assert_eq!(f.folder_name, "Dossier de test");
    assert_eq!(f.folder_slug, "dossier-de-test");
    assert_eq!(f.parent_id, Some(7));
}

#[test]
fn matched_note_spells_request_path() {
    let request = "docs/rust/async/ma-note";
    let (folder_path, slug) = split_note_slug(split_path(request)).ok().unwrap();
    let folders = tree();
    let c = cand(10, 4);
    assert_eq!(c.slug, slug);
    let r = match_candidates(&folder_path, &vec![c], &folders);
    assert_eq!(r, vec![CandidateMatch::Matches(10)]);
    let index = index_folders(&folders);
    match climb_from(&folders, &index, 4) {
        Walked::Slugs(mut s) => {
            s.push(slug);
            assert_eq!(s.join("/"), request);
        }
        _ => panic!("expected slugs"),
    }
}

#[test]
fn chain_as_long_as_the_list_still_ends() {
    let folders = vec![
        folder(5, Some(4), "e"),
        folder(4, Some(3), "d"),
        folder(3, Some(2), "c"),
        folder(2, Some(1), "b"),
        folder(1, None, "a"),
    ];
    let r = match_candidates(&strings(&["a", "b", "c", "d", "e"]), &vec![cand(10, 5)], &folders);
    assert_eq!(r, vec![CandidateMatch::Matches(10)]);
}

#[test]
fn candidate_after_a_stop_is_not_looked_at() {
    let folders = vec![folder(1, Some(1), "a"), folder(2, None, "b")];
    let r = match_candidates(&strings(&["b"]), &vec![cand(10, 1), cand(11, 2)], &folders);
    assert_eq!(r, vec![CandidateMatch::FolderLoop]);
}
