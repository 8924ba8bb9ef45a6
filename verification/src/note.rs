use vstd::prelude::*;

use crate::outside::{
    is_random_uuid, is_slug, new_random_id, now_timestamp, slug_of, slugify_text, Timestamp,
};

verus! {

broadcast use vstd::string::group_string_axioms;

/// The kinds of block a note is made of.
#[derive(PartialEq, Eq, Structural, Debug, Clone, Copy)]
pub enum BlockType {
    Text,
    Code,
    Heading,
    Note,
    List,
}

/// One block of a note. `metadata` is the block's JSON metadata as text.
pub struct NoteBlock {
    pub id_note_block: u128,
    pub id_note: u128,
    pub block_type: BlockType,
    pub content: String,
    pub order_index: i32,
    pub metadata: Option<String>,
}

/// A block to be added to a note.
pub struct CreateNoteBlockPayload {
    pub block_type: BlockType,
    pub content: String,
    pub order_index: i32,
    pub metadata: Option<String>,
}

/// A note with what is shown of it.
pub struct NoteToShow {
    pub id_note: u128,
    pub title: String,
    pub subtitle: Option<String>,
    pub slug: String,
    pub blocks: Vec<NoteBlock>,
    pub folder: String,
    pub created_at: Timestamp,
    pub updated_at: Timestamp,
}

/// A note without its blocks, with the name of its folder.
pub struct NoteSummary {
    pub id_note: u128,
    pub title: String,
    pub subtitle: Option<String>,
    pub created_at: Timestamp,
    pub updated_at: Timestamp,
    pub folder: String,
    pub slug: String,
}

/// What a client sends to create a note: a title and a folder.
pub struct CreateInitNotePayload {
    pub title: String,
    pub id_folder: u128,
}

/// The row of a new note.
pub struct CreateInitNoteData {
    pub id_note: u128,
    pub title: String,
    pub id_folder: u128,
    pub slug: String,
}

/// The id of a new note.
pub struct NewNote {
    pub id_note: u128,
}

/// The texts of an optional string.
pub open spec fn opt_text(o: Option<String>) -> Option<Seq<char>> {
    match o {
        Some(s) => Some(s@),
        None => None,
    }
}

fn copy_opt_text(o: &Option<String>) -> (r: Option<String>)
    ensures
        opt_text(r) == opt_text(*o),
{
    match o {
        Some(s) => Some(s.clone()),
        None => None,
    }
}

/// The row of a note made from `payload`, with the id `id_note` and the
/// slug `slug`.
pub fn init_note_data(payload: &CreateInitNotePayload, id_note: u128, slug: String) -> (d:
    CreateInitNoteData)
    ensures
        d.id_note == id_note,
        d.title@ == payload.title@,
        d.id_folder == payload.id_folder,
        d.slug@ == slug@,
{
    CreateInitNoteData {
        id_note,
        title: payload.title.clone(),
        id_folder: payload.id_folder,
        slug,
    }
}

/// Prepares the creation of a note: a fresh random id, and the note's row
/// with that id, the payload's title and folder, and the slug of the title.
pub fn prepare_note(payload: &CreateInitNotePayload) -> (r: (NewNote, CreateInitNoteData))
    ensures
        is_random_uuid(r.0.id_note),
        r.1.id_note == r.0.id_note,
        r.1.title@ == payload.title@,
        r.1.id_folder == payload.id_folder,
        r.1.slug@ == slug_of(payload.title@),
        is_slug(r.1.slug@),
{
    let id = new_random_id();
    let new_note = NewNote { id_note: id };
    let slug = slugify_text(payload.title.as_str());
    let data = init_note_data(payload, id, slug);
    (new_note, data)
}

/// The block `payload` of the note `note`, with the id `id_note_block`.
pub fn block_of(note: &NewNote, payload: &CreateNoteBlockPayload, id_note_block: u128) -> (b:
    NoteBlock)
    ensures
        b.id_note_block == id_note_block,
        b.id_note == note.id_note,
        b.block_type == payload.block_type,
        b.content@ == payload.content@,
        b.order_index == payload.order_index,
        opt_text(b.metadata) == opt_text(payload.metadata),
{
    NoteBlock {
        id_note_block,
        id_note: note.id_note,
        block_type: payload.block_type,
        content: payload.content.clone(),
        order_index: payload.order_index,
        metadata: copy_opt_text(&payload.metadata),
    }
}

/// The block `payload` of the note `note`, with a fresh random id.
pub fn new_block(note: &NewNote, payload: &CreateNoteBlockPayload) -> (b: NoteBlock)
    ensures
        is_random_uuid(b.id_note_block),
        b.id_note == note.id_note,
        b.block_type == payload.block_type,
        b.content@ == payload.content@,
        b.order_index == payload.order_index,
        opt_text(b.metadata) == opt_text(payload.metadata),
{
    let id = new_random_id();
    block_of(note, payload, id)
}

/// A note to show, from its summary and its blocks, the blocks kept in
/// the order given.
pub fn note_to_show(summary: NoteSummary, blocks: Vec<NoteBlock>) -> (n: NoteToShow)
    ensures
        n.id_note == summary.id_note,
        n.title == summary.title,
        n.subtitle == summary.subtitle,
        n.folder == summary.folder,
        n.slug == summary.slug,
        n.created_at == summary.created_at,
        n.updated_at == summary.updated_at,
        n.blocks == blocks,
{
    NoteToShow {
        id_note: summary.id_note,
        title: summary.title,
        subtitle: summary.subtitle,
        folder: summary.folder,
        slug: summary.slug,
        created_at: summary.created_at,
        updated_at: summary.updated_at,
        blocks,
    }
}

/// The note that the lookup by path answers with: "Ma belle note"
/// (slug "ma-belle-note", no subtitle, folder "un dossier") with one
/// heading block "coucou" at index 1 and no metadata.
pub fn placeholder_note(id_note: u128, id_block: u128, created_at: Timestamp, updated_at: Timestamp) -> (n:
    NoteToShow)
    ensures
        n.id_note == id_note,
        n.title@ == "Ma belle note"@,
        n.subtitle is None,
        n.slug@ == "ma-belle-note"@,
        n.folder@ == "un dossier"@,
        n.created_at == created_at,
        n.updated_at == updated_at,
        n.blocks@.len() == 1,
        n.blocks@[0].id_note_block == id_block,
        n.blocks@[0].id_note == id_note,
        n.blocks@[0].block_type == BlockType::Heading,
        n.blocks@[0].content@ == "coucou"@,
        n.blocks@[0].order_index == 1,
        n.blocks@[0].metadata is None,
{
    let block = NoteBlock {
        id_note_block: id_block,
        block_type: BlockType::Heading,
        content: "coucou".to_string(),
        id_note,
        order_index: 1,
        metadata: None,
    };
    let mut blocks = Vec::new();
    blocks.push(block);
    NoteToShow {
        id_note,
        title: "Ma belle note".to_string(),
        subtitle: None,
        slug: "ma-belle-note".to_string(),
        blocks,
        folder: "un dossier".to_string(),
        created_at,
        updated_at,
    }
}

/// The placeholder note with fresh random ids for the note and its block,
/// created and updated at the present instant (the clock is read twice).
pub fn fresh_placeholder_note() -> (n: NoteToShow)
    ensures
        is_random_uuid(n.id_note),
        is_random_uuid(n.blocks@[0].id_note_block),
        n.created_at.secs >= 0,
        n.created_at.nanos < 1_000_000_000,
        n.updated_at.secs >= 0,
        n.updated_at.nanos < 1_000_000_000,
        n.title@ == "Ma belle note"@,
        n.subtitle is None,
        n.slug@ == "ma-belle-note"@,
        n.folder@ == "un dossier"@,
        n.blocks@.len() == 1,
        n.blocks@[0].id_note == n.id_note,
        n.blocks@[0].block_type == BlockType::Heading,
        n.blocks@[0].content@ == "coucou"@,
        n.blocks@[0].order_index == 1,
        n.blocks@[0].metadata is None,
{
    let id_note = new_random_id();
    let id_block = new_random_id();
    let created_at = now_timestamp();
    let updated_at = now_timestamp();
    placeholder_note(id_note, id_block, created_at, updated_at)
}

} // verus!
