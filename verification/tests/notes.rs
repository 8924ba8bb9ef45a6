use notes_core::{
    block_of, fresh_placeholder_note, init_note_data, new_block, note_to_show, placeholder_note,
    prepare_note, BlockType, CreateInitNotePayload, CreateNoteBlockPayload, NewNote, NoteCreated,
    NoteSummary, Timestamp,
};

fn is_random_uuid(id: u128) -> bool {
    (id >> 76) & 0xf == 4 && (id >> 62) & 0x3 == 2
}

#[test]
fn create_test() {
    let id_new_folder: u128 = 0x1234;
    let note_blocks = vec![
        CreateNoteBlockPayload {
            block_type: BlockType::Heading,
            content: "Titre de la section".to_string(),
            order_index: 1,
            metadata: None,
        },
        CreateNoteBlockPayload {
            block_type: BlockType::Text,
            content: "Contenu de la section".to_string(),
            order_index: 2,
            metadata: None,
        },
    ];
    let new_note_data = CreateInitNotePayload { title: "Test de note".to_string(), id_folder: id_new_folder };
    let (new_note, data) = prepare_note(&new_note_data);
    assert_eq!(data.id_note, new_note.id_note);
    assert_eq!(data.id_folder, id_new_folder);
    assert_eq!(data.title, "Test de note");
    assert_eq!(data.slug, "test-de-note");

    let blocks: Vec<_> = note_blocks.iter().map(|b| new_block(&new_note, b)).collect();
    let get_note = note_to_show(
        NoteSummary {
            id_note: data.id_note,
            title: data.title.clone(),
            subtitle: None,
            created_at: Timestamp { secs: 0, nanos: 0 },
            updated_at: Timestamp { secs: 0, nanos: 0 },
            folder: "Dossier de test".to_string(),
            slug: data.slug.clone(),
        },
        blocks,
    );
    assert_eq!(get_note.title, "Test de note");
    assert_eq!(get_note.subtitle, None);
    assert_eq!(get_note.slug, "test-de-note");
    for (a, b) in get_note.blocks.iter().zip(note_blocks.iter()) {
        assert_eq!(a.content, b.content);
        assert_eq!(a.order_index, b.order_index);
        assert_eq!(a.metadata, b.metadata);
        assert_eq!(a.block_type, b.block_type);
    }
}

#[test]
fn prepare_note_slugifies_the_title() {
    let p = CreateInitNotePayload { title: "Ma Belle Note !".to_string(), id_folder: 9 };
    let (n, d) = prepare_note(&p);
    assert_eq!(d.slug, "ma-belle-note");
    assert_ne!(d.slug, p.title);
    assert!(is_random_uuid(n.id_note));
    assert_eq!(d.id_note, n.id_note);
    let p = CreateInitNotePayload { title: "Été à Paris".to_string(), id_folder: 9 };
    assert_eq!(prepare_note(&p).1.slug, "ete-a-paris");
}

#[test]
fn prepare_note_gives_fresh_ids() {
    let p = CreateInitNotePayload { title: "x".to_string(), id_folder: 1 };
    assert_ne!(prepare_note(&p).0.id_note, prepare_note(&p).0.id_note);
}

#[test]
fn init_note_data_uses_given_id_and_slug() {
    let p = CreateInitNotePayload { title: "Titre".to_string(), id_folder: 3 };
    let d = init_note_data(&p, 77, "mon-slug".to_string());
    assert_eq!(d.id_note, 77);
    assert_eq!(d.title, "Titre");
    assert_eq!(d.id_folder, 3);
    assert_eq!(d.slug, "mon-slug");
}

#[test]
fn blocks_belong_to_their_note() {
    let note = NewNote { id_note: 5 };
    let payload = CreateNoteBlockPayload {
        block_type: BlockType::Code,
        content: "fn main() {}".to_string(),
        order_index: 3,
        metadata: Some("{\"lang\":\"rust\"}".to_string()),
    };
    let b = block_of(&note, &payload, 99);
    assert_eq!(b.id_note_block, 99);
    assert_eq!(b.id_note, 5);
    assert_eq!(b.block_type, BlockType::Code);
    assert_eq!(b.content, "fn main() {}");
    assert_eq!(b.order_index, 3);
    assert_eq!(b.metadata.as_deref(), Some("{\"lang\":\"rust\"}"));
    let b = new_block(&note, &payload);
    assert!(is_random_uuid(b.id_note_block));
    assert_eq!(b.id_note, 5);
}

#[test]
fn placeholder_note_is_fixed() {
    let t1 = Timestamp { secs: 30, nanos: 123_456_789 };
    let t2 = Timestamp { secs: 40, nanos: 1 };
    let n = placeholder_note(1, 2, t1, t2);
    assert_eq!(n.id_note, 1);
    assert_eq!(n.title, "Ma belle note");
    assert_eq!(n.subtitle, None);
    assert_eq!(n.slug, "ma-belle-note");
    assert_eq!(n.folder, "un dossier");
    assert_eq!((n.created_at, n.updated_at), (t1, t2));
    assert_eq!(n.blocks.len(), 1);
    assert_eq!(n.blocks[0].id_note_block, 2);
    assert_eq!(n.blocks[0].id_note, 1);
    assert_eq!(n.blocks[0].block_type, BlockType::Heading);
    assert_eq!(n.blocks[0].content, "coucou");
    assert_eq!(n.blocks[0].order_index, 1);
    assert_eq!(n.blocks[0].metadata, None);
}

#[test]
fn fresh_placeholder_note_has_random_ids_and_present_time() {
    let n = fresh_placeholder_note();
    assert!(is_random_uuid(n.id_note));
    assert!(is_random_uuid(n.blocks[0].id_note_block));
    assert_eq!(n.blocks[0].id_note, n.id_note);
    assert!(n.created_at.secs > 1_600_000_000);
    assert!(n.created_at.nanos < 1_000_000_000);
    assert!(n.updated_at.nanos < 1_000_000_000);
    assert!((n.updated_at.secs, n.updated_at.nanos) >= (n.created_at.secs, n.created_at.nanos));
}

#[test]
fn note_created_marker_exists() {
    let _ = NoteCreated;
}
