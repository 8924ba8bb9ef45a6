use vstd::prelude::*;

use crate::error::AppError;
use crate::path::{join_segments, lemma_join_segments, path_segments};
use crate::folder::{
    climb, climb_from, folder_table, folder_views, index_folders, texts, Climb, FolderBranch,
    FolderView, Walked,
};

verus! {

broadcast use vstd::string::group_string_axioms;

/// A note whose slug is the one asked for: its id and the id of its folder.
pub struct NoteFromSlug {
    pub id_note: u128,
    pub id_folder: u128,
    pub slug: String,
}

/// What the lookup by path makes of one candidate note.
#[derive(PartialEq, Eq, Structural, Debug, Clone, Copy)]
pub enum CandidateMatch {
    /// The slugs of the candidate's folders spell the requested folder path:
    /// the note with this id is to be fetched.
    Matches(u128),
    /// The candidate lies in another folder.
    Skipped,
    /// A folder on the way up from the candidate is not in the tree: the
    /// lookup ends with "Dossier introuvable".
    FolderMissing,
    /// The parent links from the candidate's folder loop: the climb never
    /// reaches the top, so the lookup never ends.
    FolderLoop,
}

/// The text of the error for a path without any segment.
pub open spec fn empty_path_text() -> Seq<char> {
    "Non autorisé"@
}

/// The text of the error for a folder that the tree does not hold.
pub open spec fn missing_folder_text() -> Seq<char> {
    "Dossier introuvable"@
}

/// The text of the error for a path that no note has.
pub open spec fn no_result_text() -> Seq<char> {
    "Aucun résultat trouve"@
}

/// The text of the error for a path that several notes have.
pub open spec fn several_results_text() -> Seq<char> {
    "Plusieurs résultats trouvés"@
}

/// What becomes of the candidate `c` when the requested folder path is
/// `wanted`, climbing at most `fuel` steps in the folder table `t`.
pub open spec fn candidate_outcome(
    t: Map<u128, FolderView>,
    wanted: Seq<Seq<char>>,
    c: NoteFromSlug,
    fuel: nat,
) -> CandidateMatch {
    match climb(t, Some(c.id_folder), fuel) {
        Climb::Slugs(p) => if p == wanted {
            CandidateMatch::Matches(c.id_note)
        } else {
            CandidateMatch::Skipped
        },
        Climb::Missing => CandidateMatch::FolderMissing,
        Climb::Unfinished => CandidateMatch::FolderLoop,
    }
}

/// Once the number of steps allowed is at least the number of folders in
/// the table, the outcome of a candidate no longer depends on it: a larger
/// number gives the same outcome. So `FolderLoop` means a climb that never
/// ends, and every other outcome is that of the climb with no bound.
pub proof fn lemma_outcome_is_final(
    t: Map<u128, FolderView>,
    wanted: Seq<Seq<char>>,
    c: NoteFromSlug,
    n: nat,
    m: nat,
)
    requires
        t.dom().finite(),
        t.dom().len() <= n <= m,
    ensures
        candidate_outcome(t, wanted, c, m) == candidate_outcome(t, wanted, c, n),
{
    if climb(t, Some(c.id_folder), n) is Unfinished {
        crate::folder::lemma_unfinished_climb_never_ends(t, Some(c.id_folder), n, m);
    } else {
        crate::folder::lemma_climb_fuel(t, Some(c.id_folder), n, m);
    }
}

/// The bound that `match_candidates` climbs with, the length of the folder
/// list, is large enough: any larger bound gives every candidate the same
/// outcome.
pub proof fn lemma_list_length_bound_suffices(
    fs: Seq<FolderView>,
    wanted: Seq<Seq<char>>,
    c: NoteFromSlug,
    m: nat,
)
    requires
        fs.len() <= m,
    ensures
        candidate_outcome(folder_table(fs), wanted, c, m) == candidate_outcome(
            folder_table(fs),
            wanted,
            c,
            fs.len(),
        ),
{
    crate::folder::lemma_folder_table_size(fs);
    lemma_outcome_is_final(folder_table(fs), wanted, c, fs.len(), m);
}

/// A candidate whose climb spells the requested folder path is matched;
/// one whose climb ends with other slugs is passed over; one whose climb
/// meets a missing folder, or does not finish, gives that outcome.
pub proof fn lemma_candidate_outcome_by_climb(
    t: Map<u128, FolderView>,
    wanted: Seq<Seq<char>>,
    c: NoteFromSlug,
    fuel: nat,
)
    ensures
        climb(t, Some(c.id_folder), fuel) == Climb::Slugs(wanted) ==> candidate_outcome(
            t,
            wanted,
            c,
            fuel,
        ) == CandidateMatch::Matches(c.id_note),
        (climb(t, Some(c.id_folder), fuel) is Slugs && climb(t, Some(c.id_folder), fuel)
            != Climb::Slugs(wanted)) ==> candidate_outcome(t, wanted, c, fuel)
            == CandidateMatch::Skipped,
        climb(t, Some(c.id_folder), fuel) is Missing ==> candidate_outcome(t, wanted, c, fuel)
            == CandidateMatch::FolderMissing,
        climb(t, Some(c.id_folder), fuel) is Unfinished ==> candidate_outcome(t, wanted, c, fuel)
            == CandidateMatch::FolderLoop,
{
}

/// What the lookup makes of the candidates, in terms of their climbs
/// alone. While every earlier candidate's climb ends with slugs (whether
/// they spell the requested path or not), candidate `i` is looked at: it is
/// matched when its climb spells the requested folder path and passed over
/// when it spells another; a missing folder or an unfinished climb gives
/// that outcome and is the last outcome of the list. When every climb ends
/// with slugs, every candidate gets an outcome.
pub proof fn lemma_outcomes_follow_the_climbs(
    t: Map<u128, FolderView>,
    wanted: Seq<Seq<char>>,
    cs: Seq<NoteFromSlug>,
    fuel: nat,
    i: int,
)
    requires
        0 <= i < cs.len(),
        forall|j: int| 0 <= j < i ==> #[trigger] climb(t, Some(cs[j].id_folder), fuel) is Slugs,
    ensures
        candidate_outcomes(t, wanted, cs, fuel).len() > i,
        climb(t, Some(cs[i].id_folder), fuel) == Climb::Slugs(wanted) ==> candidate_outcomes(
            t,
            wanted,
            cs,
            fuel,
        )[i] == CandidateMatch::Matches(cs[i].id_note),
        (climb(t, Some(cs[i].id_folder), fuel) is Slugs && climb(t, Some(cs[i].id_folder), fuel)
            != Climb::Slugs(wanted)) ==> candidate_outcomes(t, wanted, cs, fuel)[i]
            == CandidateMatch::Skipped,
        climb(t, Some(cs[i].id_folder), fuel) is Missing ==> candidate_outcomes(
            t,
            wanted,
            cs,
            fuel,
        )[i] == CandidateMatch::FolderMissing && candidate_outcomes(t, wanted, cs, fuel).len()
            == i + 1,
        climb(t, Some(cs[i].id_folder), fuel) is Unfinished ==> candidate_outcomes(
            t,
            wanted,
            cs,
            fuel,
        )[i] == CandidateMatch::FolderLoop && candidate_outcomes(t, wanted, cs, fuel).len() == i
            + 1,
        (forall|j: int| 0 <= j < cs.len() ==> #[trigger] climb(t, Some(cs[j].id_folder), fuel) is Slugs)
            ==> candidate_outcomes(t, wanted, cs, fuel).len() == cs.len(),
{
    assert forall|j: int| 0 <= j < i implies !ends_lookup(
        #[trigger] candidate_outcome(t, wanted, cs[j], fuel),
    ) by {
        assert(climb(t, Some(cs[j].id_folder), fuel) is Slugs);
    }
    lemma_outcome_of_candidate(t, wanted, cs, fuel, i);
    lemma_candidate_outcome_by_climb(t, wanted, cs[i], fuel);
    let o = candidate_outcome(t, wanted, cs[i], fuel);
    if ends_lookup(o) {
        lemma_outcomes_prefix(t, wanted, cs, fuel, i);
        let before = candidate_outcomes(t, wanted, cs.take(i), fuel);
        assert(cs.take(i + 1).drop_last() =~= cs.take(i));
        assert(cs.take(i + 1).last() == cs[i]);
        if i > 0 {
            assert(before[i - 1] == candidate_outcome(t, wanted, cs[i - 1], fuel));
        }
        assert(candidate_outcomes(t, wanted, cs.take(i + 1), fuel) == before.push(o));
        lemma_outcomes_stay(t, wanted, cs, i + 1, fuel);
    }
    if forall|j: int| 0 <= j < cs.len() ==> #[trigger] climb(t, Some(cs[j].id_folder), fuel) is Slugs {
        assert forall|j: int| 0 <= j < cs.len() implies !ends_lookup(
            #[trigger] candidate_outcome(t, wanted, cs[j], fuel),
        ) by {
            assert(climb(t, Some(cs[j].id_folder), fuel) is Slugs);
        }
        lemma_outcomes_prefix(t, wanted, cs, fuel, cs.len() as int);
        assert(cs.take(cs.len() as int) =~= cs);
    }
}

/// Every candidate before which no candidate ends the lookup gets its own
/// outcome: the lookup looks at it, and at its place in the list of
/// outcomes stands what becomes of it.
pub proof fn lemma_outcome_of_candidate(
    t: Map<u128, FolderView>,
    wanted: Seq<Seq<char>>,
    cs: Seq<NoteFromSlug>,
    fuel: nat,
    i: int,
)
    requires
        0 <= i < cs.len(),
        forall|j: int| 0 <= j < i ==> !ends_lookup(#[trigger] candidate_outcome(t, wanted, cs[j], fuel)),
    ensures
        candidate_outcomes(t, wanted, cs, fuel).len() > i,
        candidate_outcomes(t, wanted, cs, fuel)[i] == candidate_outcome(t, wanted, cs[i], fuel),
    decreases cs.len(),
{
    lemma_outcomes_prefix(t, wanted, cs, fuel, i);
    let prev = candidate_outcomes(t, wanted, cs.take(i), fuel);
    assert(cs.take(i + 1).drop_last() =~= cs.take(i));
    assert(cs.take(i + 1).last() == cs[i]);
    if i > 0 {
        assert(prev[i - 1] == candidate_outcome(t, wanted, cs[i - 1], fuel));
    }
    lemma_outcomes_extend(t, wanted, cs, fuel, i + 1);
}

/// The outcomes of the first `i` candidates, when none of them ends the
/// lookup, are their outcomes one by one.
proof fn lemma_outcomes_prefix(
    t: Map<u128, FolderView>,
    wanted: Seq<Seq<char>>,
    cs: Seq<NoteFromSlug>,
    fuel: nat,
    i: int,
)
    requires
        0 <= i <= cs.len(),
        forall|j: int| 0 <= j < i ==> !ends_lookup(#[trigger] candidate_outcome(t, wanted, cs[j], fuel)),
    ensures
        candidate_outcomes(t, wanted, cs.take(i), fuel).len() == i,
        forall|j: int|
            0 <= j < i ==> #[trigger] candidate_outcomes(t, wanted, cs.take(i), fuel)[j]
                == candidate_outcome(t, wanted, cs[j], fuel),
    decreases i,
{
    if i > 0 {
        lemma_outcomes_prefix(t, wanted, cs, fuel, i - 1);
        assert(cs.take(i).drop_last() =~= cs.take(i - 1));
        assert(cs.take(i).last() == cs[i - 1]);
        if i > 1 {
            assert(candidate_outcomes(t, wanted, cs.take(i - 1), fuel).last() == candidate_outcome(
                t,
                wanted,
                cs[i - 2],
                fuel,
            ));
        }
    } else {
        assert(cs.take(0) =~= Seq::<NoteFromSlug>::empty());
    }
}

/// Outcomes already given stay when more candidates follow.
proof fn lemma_outcomes_extend(
    t: Map<u128, FolderView>,
    wanted: Seq<Seq<char>>,
    cs: Seq<NoteFromSlug>,
    fuel: nat,
    k: int,
)
    requires
        0 <= k <= cs.len(),
    ensures
        candidate_outcomes(t, wanted, cs, fuel).len() >= candidate_outcomes(
            t,
            wanted,
            cs.take(k),
            fuel,
        ).len(),
        forall|j: int|
            0 <= j < candidate_outcomes(t, wanted, cs.take(k), fuel).len() ==> #[trigger] candidate_outcomes(
                t,
                wanted,
                cs,
                fuel,
            )[j] == candidate_outcomes(t, wanted, cs.take(k), fuel)[j],
    decreases cs.len() - k,
{
    if k < cs.len() {
        lemma_outcomes_extend(t, wanted, cs, fuel, k + 1);
        assert(cs.take(k + 1).drop_last() =~= cs.take(k));
    } else {
        assert(cs.take(k) =~= cs);
    }
}

/// A note that the lookup matches lies where the request path says: the
/// slugs of its folders, top folder first, followed by its own slug, joined
/// with `'/'`, give back the request path, provided the candidate carries
/// the slug that the path ends with (the candidates are the notes with
/// that slug).
pub proof fn lemma_matched_note_spells_path(
    request: Seq<char>,
    t: Map<u128, FolderView>,
    c: NoteFromSlug,
    fuel: nat,
)
    requires
        candidate_outcome(t, path_segments(request).drop_last(), c, fuel) is Matches,
        c.slug@ == path_segments(request).last(),
    ensures
        climb(t, Some(c.id_folder), fuel) matches Climb::Slugs(s) && join_segments(
            s.push(c.slug@),
        ) == request,
{
    let segs = path_segments(request);
    crate::path::lemma_segments_nonempty(request);
    lemma_join_segments(request);
    assert(segs.drop_last().push(segs.last()) =~= segs);
}

/// An outcome after which no further candidate is looked at.
pub open spec fn ends_lookup(o: CandidateMatch) -> bool {
    o is FolderMissing || o is FolderLoop
}

/// The outcomes of the candidates, in order, up to and including the first
/// one that ends the lookup.
pub open spec fn candidate_outcomes(
    t: Map<u128, FolderView>,
    wanted: Seq<Seq<char>>,
    cs: Seq<NoteFromSlug>,
    fuel: nat,
) -> Seq<CandidateMatch>
    decreases cs.len(),
{
    if cs.len() == 0 {
        Seq::empty()
    } else {
        let prev = candidate_outcomes(t, wanted, cs.drop_last(), fuel);
        if prev.len() > 0 && ends_lookup(prev.last()) {
            prev
        } else {
            prev.push(candidate_outcome(t, wanted, cs.last(), fuel))
        }
    }
}

/// Whether two lists of strings hold the same texts in the same order.
pub fn same_texts(a: &Vec<String>, b: &Vec<String>) -> (r: bool)
    ensures
        r == (texts(a@) == texts(b@)),
{
    if a.len() != b.len() {
        assert(texts(a@).len() != texts(b@).len());
        return false;
    }
    let n = a.len();
    for i in 0..n
        invariant
            n == a.len(),
            n == b.len(),
            forall|j: int| 0 <= j < i ==> a@[j]@ == b@[j]@,
    {
        if a[i] != b[i] {
            assert(texts(a@)[i as int] != texts(b@)[i as int]);
            return false;
        }
    }
    assert(texts(a@) =~= texts(b@));
    true
}

/// Splits a path into its folder part and the slug of the note: the slug is
/// the last segment. A path without any segment is refused with
/// `NotFound("Non autorisé")`.
pub fn split_note_slug(path: Vec<String>) -> (r: Result<(Vec<String>, String), AppError>)
    ensures
        path.len() == 0 <==> r is Err,
        r matches Err(e) ==> e matches AppError::NotFound(m) && m@ == empty_path_text(),
        r matches Ok((folders, slug)) ==> texts(folders@) == texts(path@).drop_last() && slug@
            == path@.last()@,
{
    let mut path = path;
    if path.len() == 0 {
        return Err(AppError::NotFound("Non autorisé".to_string()));
    }
    let ghost before = path@;
    let slug = path.remove(path.len() - 1);
    assert(texts(path@) =~= texts(before).drop_last());
    Ok((path, slug))
}

/// Decides, for each candidate in order, whether it is the note at the
/// requested folder path: it climbs from the candidate's folder to the top
/// of the folder tree and compares the slugs met, top folder first, with
/// `folder_path`. It stops after the first candidate whose climb meets a
/// folder that the tree does not hold, or whose parent links loop.
///
/// Where several folders of `folders` share an id, the last one counts.
pub fn match_candidates(
    folder_path: &Vec<String>,
    candidates: &Vec<NoteFromSlug>,
    folders: &Vec<FolderBranch>,
) -> (r: Vec<CandidateMatch>)
    ensures
        r@ == candidate_outcomes(
            folder_table(folder_views(folders@)),
            texts(folder_path@),
            candidates@,
            folders.len() as nat,
        ),
{
    let ghost t = folder_table(folder_views(folders@));
    let ghost wanted = texts(folder_path@);
    let ghost fuel = folders.len() as nat;
    let index = index_folders(folders);
    let mut outcomes: Vec<CandidateMatch> = Vec::new();
    let n = candidates.len();
    let mut i: usize = 0;
    assert(candidates@.take(0) =~= Seq::<NoteFromSlug>::empty());
    assert(candidates@.take(n as int) =~= candidates@);
    while i < n
        invariant_except_break
            i <= n,
            n == candidates.len(),
            candidates@.take(n as int) == candidates@,
            t == folder_table(folder_views(folders@)),
            fuel == folders.len(),
            wanted == texts(folder_path@),
            crate::folder::indexes(index@, folders@, t, folders.len() as int),
            outcomes@ == candidate_outcomes(t, wanted, candidates@.take(i as int), fuel),
            !(outcomes@.len() > 0 && ends_lookup(outcomes@.last())),
        ensures
            outcomes@ == candidate_outcomes(t, wanted, candidates@, fuel),
        decreases n - i,
    {
        let c = &candidates[i];
        let walked = climb_from(folders, &index, c.id_folder);
        let outcome = match walked {
            Walked::Slugs(p) => {
                if same_texts(&p, folder_path) {
                    CandidateMatch::Matches(c.id_note)
                } else {
                    CandidateMatch::Skipped
                }
            },
            Walked::Missing => CandidateMatch::FolderMissing,
            Walked::Unfinished => CandidateMatch::FolderLoop,
        };
        assert(candidates@.take(i + 1).drop_last() =~= candidates@.take(i as int));
        assert(candidates@.take(i + 1).last() == candidates@[i as int]);
        outcomes.push(outcome);
        i = i + 1;
        if ends_lookup_now(outcome) {
            proof {
                lemma_outcomes_stay(t, wanted, candidates@, i as int, fuel);
            }
            break;
        }
    }
    outcomes
}

/// Whether `o` ends the lookup.
fn ends_lookup_now(o: CandidateMatch) -> (r: bool)
    ensures
        r == ends_lookup(o),
{
    match o {
        CandidateMatch::FolderMissing => true,
        CandidateMatch::FolderLoop => true,
        _ => false,
    }
}

/// Once an outcome ends the lookup, later candidates add nothing.
proof fn lemma_outcomes_stay(
    t: Map<u128, FolderView>,
    wanted: Seq<Seq<char>>,
    cs: Seq<NoteFromSlug>,
    i: int,
    fuel: nat,
)
    requires
        0 < i <= cs.len(),
        candidate_outcomes(t, wanted, cs.take(i), fuel).len() > 0,
        ends_lookup(candidate_outcomes(t, wanted, cs.take(i), fuel).last()),
    ensures
        candidate_outcomes(t, wanted, cs, fuel) == candidate_outcomes(t, wanted, cs.take(i), fuel),
    decreases cs.len() - i,
{
    if i < cs.len() {
        assert(cs.take(i + 1).drop_last() =~= cs.take(i));
        lemma_outcomes_stay(t, wanted, cs, i + 1, fuel);
    } else {
        assert(cs.take(i) =~= cs);
    }
}

/// Picks the note found at the requested path: none is refused with
/// `NotFound("Aucun résultat trouve")`, several with
/// `Unauthorized("Plusieurs résultats trouvés")`.
pub fn select_single<T>(notes: Vec<T>) -> (r: Result<T, AppError>)
    ensures
        notes.len() == 1 <==> r is Ok,
        r matches Ok(note) ==> note == notes@[0],
        notes.len() == 0 ==> (r matches Err(AppError::NotFound(m)) && m@ == no_result_text()),
        notes.len() > 1 ==> (r matches Err(AppError::Unauthorized(m)) && m@
            == several_results_text()),
{
    let mut notes = notes;
    match notes.len() {
        0 => Err(AppError::NotFound("Aucun résultat trouve".to_string())),
        1 => Ok(notes.remove(0)),
        _ => Err(AppError::Unauthorized("Plusieurs résultats trouvés".to_string())),
    }
}

/// The error that ends a lookup on a candidate whose folder is missing
/// from the tree: `NotFound("Dossier introuvable")`.
pub fn missing_folder_error() -> (e: AppError)
    ensures
        e matches AppError::NotFound(m) && m@ == missing_folder_text(),
{
    AppError::NotFound("Dossier introuvable".to_string())
}

} // verus!
