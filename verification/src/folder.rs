use std::collections::HashMap;
use vstd::prelude::*;

verus! {

/// A folder as the folder tree lists it: its id, its name, the id of the
/// folder that holds it (none for a top folder) and its slug.
pub struct FolderBranch {
    pub id_folder: u128,
    pub folder_name: String,
    pub parent_id: Option<u128>,
    pub folder_slug: String,
}

/// What a client gives to create a folder, with its new id.
pub struct CreateFolderData {
    pub id_folder: u128,
    pub folder_name: String,
    pub folder_slug: String,
    pub parent_id: Option<u128>,
}

/// The folder that the creation of `data` yields: the same id, name,
/// parent and slug.
pub fn created_folder(data: CreateFolderData) -> (f: FolderBranch)
    ensures
        f.id_folder == data.id_folder,
        f.folder_name == data.folder_name,
        f.parent_id == data.parent_id,
        f.folder_slug == data.folder_slug,
{
    FolderBranch {
        id_folder: data.id_folder,
        folder_name: data.folder_name,
        parent_id: data.parent_id,
        folder_slug: data.folder_slug,
    }
}

/// What a folder is, as a mathematical value.
pub struct FolderView {
    pub id: u128,
    pub name: Seq<char>,
    pub parent: Option<u128>,
    pub slug: Seq<char>,
}

impl View for FolderBranch {
    type V = FolderView;

    open spec fn view(&self) -> FolderView {
        FolderView {
            id: self.id_folder,
            name: self.folder_name@,
            parent: self.parent_id,
            slug: self.folder_slug@,
        }
    }
}

/// The folders of a list, each taken by its view.
pub open spec fn folder_views(fs: Seq<FolderBranch>) -> Seq<FolderView> {
    fs.map_values(|f: FolderBranch| f@)
}

/// The folders of a list keyed by id; where an id occurs more than once,
/// the last folder with that id is the one kept.
pub open spec fn folder_table(fs: Seq<FolderView>) -> Map<u128, FolderView>
    decreases fs.len(),
{
    if fs.len() == 0 {
        Map::empty()
    } else {
        folder_table(fs.drop_last()).insert(fs.last().id, fs.last())
    }
}

/// The outcome of climbing from a folder to the top of the tree.
pub enum Climb {
    /// The slugs of the folders met, the top folder first.
    Slugs(Seq<Seq<char>>),
    /// A parent link names a folder that the table does not hold.
    Missing,
    /// The climb was still going when the allowed number of steps ran out.
    Unfinished,
}

/// Climbs from `cur` along the parent links of `t`, taking at most `fuel`
/// steps, and gathers the slugs of the folders met, the top folder first.
pub open spec fn climb(t: Map<u128, FolderView>, cur: Option<u128>, fuel: nat) -> Climb
    decreases fuel,
{
    match cur {
        None => Climb::Slugs(Seq::empty()),
        Some(id) => {
            if !t.contains_key(id) {
                Climb::Missing
            } else if fuel == 0 {
                Climb::Unfinished
            } else {
                match climb(t, t[id].parent, (fuel - 1) as nat) {
                    Climb::Slugs(p) => Climb::Slugs(p.push(t[id].slug)),
                    other => other,
                }
            }
        },
    }
}

/// The ids met by climbing `k` steps from `id`, `id` first.
pub open spec fn climb_ids(t: Map<u128, FolderView>, id: u128, k: nat) -> Seq<u128>
    decreases k,
{
    if k == 0 {
        seq![id]
    } else {
        seq![id] + climb_ids(t, t[id].parent->0, (k - 1) as nat)
    }
}

/// The table of a list of folders is finite and holds no more folders than
/// the list.
pub proof fn lemma_folder_table_size(fs: Seq<FolderView>)
    ensures
        folder_table(fs).dom().finite(),
        folder_table(fs).dom().len() <= fs.len(),
    decreases fs.len(),
{
    if fs.len() > 0 {
        lemma_folder_table_size(fs.drop_last());
    }
}

/// Every folder of the table is a folder of the list, and every id of the
/// list has the last folder with that id in the table.
pub proof fn lemma_folder_table_members(fs: Seq<FolderView>, i: int)
    requires
        0 <= i < fs.len(),
    ensures
        folder_table(fs).contains_key(fs[i].id),
        exists|j: int| i <= j < fs.len() && #[trigger] fs[j] == folder_table(fs)[fs[i].id] && fs[j].id
            == fs[i].id,
    decreases fs.len(),
{
    if i == fs.len() - 1 {
        assert(fs[i] == folder_table(fs)[fs[i].id]);
    } else {
        lemma_folder_table_members(fs.drop_last(), i);
        let j = choose|j: int|
            i <= j < fs.drop_last().len() && #[trigger] fs.drop_last()[j] == folder_table(
                fs.drop_last(),
            )[fs[i].id] && fs.drop_last()[j].id == fs[i].id;
        if fs.last().id == fs[i].id {
            assert(fs[fs.len() - 1] == folder_table(fs)[fs[i].id]);
        } else {
            assert(fs[j] == folder_table(fs)[fs[i].id]);
        }
    }
}

/// A climb that ends with slugs met one folder per slug: the folders on
/// the chain of parent links from `id` are all in the table, each linked
/// to the next, the last of them is a top folder (no parent), there are no
/// more of them than the steps allowed, and the slugs are theirs, one each,
/// the top folder's first and `id`'s last, whatever the slugs are.
pub proof fn lemma_climb_slugs_are_the_chain(t: Map<u128, FolderView>, id: u128, fuel: nat)
    requires
        climb(t, Some(id), fuel) is Slugs,
    ensures
        ({
            let p = climb(t, Some(id), fuel)->Slugs_0;
            let ids = climb_ids(t, id, (p.len() - 1) as nat);
            &&& 1 <= p.len() <= fuel
            &&& ids.len() == p.len()
            &&& ids[0] == id
            &&& forall|i: int| 0 <= i < ids.len() ==> #[trigger] t.contains_key(ids[i])
            &&& forall|i: int|
                0 <= i < ids.len() ==> p[p.len() - 1 - i] == t[#[trigger] ids[i]].slug
            &&& forall|i: int|
                0 <= i < ids.len() - 1 ==> t[#[trigger] ids[i]].parent == Some(ids[i + 1])
            &&& t[ids[ids.len() - 1]].parent is None
        }),
    decreases fuel,
{
    let p = climb(t, Some(id), fuel)->Slugs_0;
    assert(t.contains_key(id));
    assert(fuel > 0);
    let parent = t[id].parent;
    let q = climb(t, parent, (fuel - 1) as nat)->Slugs_0;
    assert(climb(t, parent, (fuel - 1) as nat) is Slugs);
    assert(p == q.push(t[id].slug));
    match parent {
        None => {
            assert(q.len() == 0);
            assert(climb_ids(t, id, 0) =~= seq![id]);
        },
        Some(pid) => {
            lemma_climb_slugs_are_the_chain(t, pid, (fuel - 1) as nat);
            let rest = climb_ids(t, pid, (q.len() - 1) as nat);
            let ids = climb_ids(t, id, (p.len() - 1) as nat);
            assert(ids =~= seq![id] + rest);
            assert forall|i: int| 0 <= i < ids.len() implies #[trigger] t.contains_key(ids[i]) by {
                if i > 0 {
                    assert(ids[i] == rest[i - 1]);
                }
            }
            assert forall|i: int| 0 <= i < ids.len() implies p[p.len() - 1 - i] == t[
                #[trigger] ids[i]
            ].slug by {
                if i > 0 {
                    assert(ids[i] == rest[i - 1]);
                    assert(p[p.len() - 1 - i] == q[q.len() - 1 - (i - 1)]);
                }
            }
            assert forall|i: int| 0 <= i < ids.len() - 1 implies t[#[trigger] ids[i]].parent
                == Some(ids[i + 1]) by {
                if i > 0 {
                    assert(ids[i] == rest[i - 1]);
                    assert(ids[i + 1] == rest[i]);
                }
            }
            assert(ids[ids.len() - 1] == rest[rest.len() - 1]);
        },
    }
}

/// The converse: a chain of folders of the table, each linked to the next
/// and ending with a top folder, no longer than the steps allowed, is
/// climbed to the slugs of its folders, one each, the top folder's first.
pub proof fn lemma_chain_climbs_to_its_slugs(
    t: Map<u128, FolderView>,
    ids: Seq<u128>,
    fuel: nat,
)
    requires
        1 <= ids.len() <= fuel,
        forall|i: int| 0 <= i < ids.len() ==> #[trigger] t.contains_key(ids[i]),
        forall|i: int| 0 <= i < ids.len() - 1 ==> t[#[trigger] ids[i]].parent == Some(ids[i + 1]),
        t[ids[ids.len() - 1]].parent is None,
    ensures
        climb(t, Some(ids[0]), fuel) == Climb::Slugs(
            Seq::new(ids.len(), |i: int| t[ids[ids.len() - 1 - i]].slug),
        ),
    decreases ids.len(),
{
    let want = Seq::new(ids.len(), |i: int| t[ids[ids.len() - 1 - i]].slug);
    assert(t.contains_key(ids[0]));
    if ids.len() == 1 {
        assert(want =~= Seq::<Seq<char>>::empty().push(t[ids[0]].slug));
        assert(climb(t, t[ids[0]].parent, (fuel - 1) as nat) == Climb::Slugs(Seq::empty()));
    } else {
        let rest = ids.drop_first();
        assert(t[ids[0]].parent == Some(ids[1]));
        assert forall|i: int| 0 <= i < rest.len() implies #[trigger] t.contains_key(rest[i]) by {
            assert(rest[i] == ids[i + 1]);
        }
        assert forall|i: int| 0 <= i < rest.len() - 1 implies t[#[trigger] rest[i]].parent == Some(
            rest[i + 1],
        ) by {
            assert(rest[i] == ids[i + 1]);
            assert(rest[i + 1] == ids[i + 2]);
        }
        lemma_chain_climbs_to_its_slugs(t, rest, (fuel - 1) as nat);
        let q = Seq::new(rest.len(), |i: int| t[rest[rest.len() - 1 - i]].slug);
        assert(q.push(t[ids[0]].slug) =~= want);
        assert(rest[0] == ids[1]);
        assert(climb(t, t[ids[0]].parent, (fuel - 1) as nat) == Climb::Slugs(q));
    }
}

/// A climb that ends within some number of steps ends the same way, with
/// the same slugs, whatever larger number of steps is allowed.
pub proof fn lemma_climb_fuel(t: Map<u128, FolderView>, cur: Option<u128>, k: nat, m: nat)
    requires
        k <= m,
        !(climb(t, cur, k) is Unfinished),
    ensures
        climb(t, cur, m) == climb(t, cur, k),
    decreases k,
{
    if let Some(id) = cur {
        if t.contains_key(id) {
            lemma_climb_fuel(t, t[id].parent, (k - 1) as nat, (m - 1) as nat);
        }
    }
}

/// A climb that is unfinished after `k` steps met only folders of the
/// table, each linked to the next.
proof fn lemma_unfinished_chain(t: Map<u128, FolderView>, id: u128, k: nat)
    requires
        climb(t, Some(id), k) is Unfinished,
    ensures
        climb_ids(t, id, k).len() == k + 1,
        climb_ids(t, id, k)[0] == id,
        forall|i: int|
            0 <= i <= k ==> #[trigger] t.contains_key(climb_ids(t, id, k)[i]),
        forall|i: int|
            0 <= i < k ==> t[#[trigger] climb_ids(t, id, k)[i]].parent == Some(
                climb_ids(t, id, k)[i + 1],
            ),
    decreases k,
{
    if k > 0 {
        assert(t.contains_key(id));
        assert(climb(t, t[id].parent, (k - 1) as nat) is Unfinished);
        assert(t[id].parent is Some);
        let next = t[id].parent->0;
        lemma_unfinished_chain(t, next, (k - 1) as nat);
        let tail = climb_ids(t, next, (k - 1) as nat);
        assert(climb_ids(t, id, k) =~= seq![id] + tail);
        assert forall|i: int| 0 <= i <= k implies #[trigger] t.contains_key(
            climb_ids(t, id, k)[i],
        ) by {
            if i > 0 {
                assert(climb_ids(t, id, k)[i] == tail[i - 1]);
            }
        }
        assert forall|i: int| 0 <= i < k implies t[#[trigger] climb_ids(t, id, k)[i]].parent
            == Some(climb_ids(t, id, k)[i + 1]) by {
            if i > 0 {
                assert(climb_ids(t, id, k)[i] == tail[i - 1]);
                assert(climb_ids(t, id, k)[i + 1] == tail[i]);
            }
        }
    }
}

/// On a loop of linked folders of the table, every climb is unfinished,
/// whatever number of steps is allowed.
proof fn lemma_loop_never_ends(t: Map<u128, FolderView>, ids: Seq<u128>, a: int, b: int, m: nat)
    requires
        0 <= a < b < ids.len(),
        ids[a] == ids[b],
        forall|i: int| 0 <= i < ids.len() ==> #[trigger] t.contains_key(ids[i]),
        forall|i: int| 0 <= i < ids.len() - 1 ==> t[#[trigger] ids[i]].parent == Some(ids[i + 1]),
    ensures
        forall|l: int| 0 <= l <= b ==> #[trigger] climb(t, Some(ids[l]), m) is Unfinished,
    decreases m,
{
    if m > 0 {
        lemma_loop_never_ends(t, ids, a, b, (m - 1) as nat);
        assert forall|l: int| 0 <= l <= b implies #[trigger] climb(t, Some(ids[l]), m) is Unfinished by {
            assert(t.contains_key(ids[l]));
            if l < b {
                assert(t[ids[l]].parent == Some(ids[l + 1]));
                assert(climb(t, Some(ids[l + 1]), (m - 1) as nat) is Unfinished);
            } else {
                assert(t[ids[a]].parent == Some(ids[a + 1]));
                assert(climb(t, Some(ids[a + 1]), (m - 1) as nat) is Unfinished);
            }
        }
    } else {
        assert forall|l: int| 0 <= l <= b implies #[trigger] climb(t, Some(ids[l]), m) is Unfinished by {
            assert(t.contains_key(ids[l]));
        }
    }
}

/// A climb that is still unfinished after as many steps as the table holds
/// folders has entered a loop of parent links: it is unfinished whatever
/// number of steps is allowed, so the climb never ends.
pub proof fn lemma_unfinished_climb_never_ends(
    t: Map<u128, FolderView>,
    cur: Option<u128>,
    k: nat,
    m: nat,
)
    requires
        t.dom().finite(),
        t.dom().len() <= k,
        climb(t, cur, k) is Unfinished,
    ensures
        climb(t, cur, m) is Unfinished,
{
    let id = cur->0;
    lemma_unfinished_chain(t, id, k);
    let ids = climb_ids(t, id, k);
    if ids.no_duplicates() {
        ids.unique_seq_to_set();
        assert(ids.to_set().subset_of(t.dom())) by {
            assert forall|x: u128| ids.to_set().contains(x) implies t.dom().contains(x) by {
                let i = choose|i: int| 0 <= i < ids.len() && ids[i] == x;
                assert(t.contains_key(ids[i]));
            }
        }
        vstd::set_lib::lemma_len_subset(ids.to_set(), t.dom());
        assert(false);
    }
    let (a0, b0) = choose|a0: int, b0: int|
        0 <= a0 < ids.len() && 0 <= b0 < ids.len() && a0 != b0 && ids[a0] == ids[b0];
    let a = if a0 < b0 { a0 } else { b0 };
    let b = if a0 < b0 { b0 } else { a0 };
    assert forall|mm: nat| #[trigger] climb(t, Some(ids[a]), mm) is Unfinished by {
        lemma_loop_never_ends(t, ids, a, b, mm);
    }
    lemma_chain_from(t, ids, a, 0, m);
}

/// On a chain of linked folders that leads into a loop, every climb from
/// before the loop is unfinished too.
proof fn lemma_chain_from(t: Map<u128, FolderView>, ids: Seq<u128>, a: int, l: int, m: nat)
    requires
        0 <= l <= a < ids.len(),
        forall|i: int| 0 <= i < ids.len() ==> #[trigger] t.contains_key(ids[i]),
        forall|i: int| 0 <= i < ids.len() - 1 ==> t[#[trigger] ids[i]].parent == Some(ids[i + 1]),
        forall|mm: nat| #[trigger] climb(t, Some(ids[a]), mm) is Unfinished,
    ensures
        climb(t, Some(ids[l]), m) is Unfinished,
    decreases a - l,
{
    if l < a {
        assert(t.contains_key(ids[l]));
        if m > 0 {
            lemma_chain_from(t, ids, a, l + 1, (m - 1) as nat);
            assert(t[ids[l]].parent == Some(ids[l + 1]));
        }
    } else {
        assert(climb(t, Some(ids[a]), m) is Unfinished);
    }
}

/// The texts of a list of strings.
pub open spec fn texts(v: Seq<String>) -> Seq<Seq<char>> {
    v.map_values(|x: String| x@)
}

/// `m` gives, for each id of `t`, and for no other, the index in `fs` of a
/// folder equal to `t`'s folder for that id, below `bound`.
pub open spec fn indexes(
    m: Map<u128, usize>,
    fs: Seq<FolderBranch>,
    t: Map<u128, FolderView>,
    bound: int,
) -> bool {
    &&& forall|k: u128| #[trigger] m.contains_key(k) <==> t.contains_key(k)
    &&& forall|k: u128|
        #[trigger] m.contains_key(k) ==> m[k] < bound && bound <= fs.len() && fs[m[k] as int]@
            == t[k]
}

/// Indexes a list of folders by id; for an id that occurs more than once
/// the last folder with it is kept.
pub fn index_folders(folders: &Vec<FolderBranch>) -> (m: HashMap<u128, usize>)
    ensures
        indexes(m@, folders@, folder_table(folder_views(folders@)), folders.len() as int),
{
    broadcast use vstd::std_specs::hash::group_hash_axioms;

    let ghost views = folder_views(folders@);
    let mut m: HashMap<u128, usize> = HashMap::new();
    let n = folders.len();
    assert(views.take(0) =~= Seq::<FolderView>::empty());
    for i in 0..n
        invariant
            n == folders.len(),
            views == folder_views(folders@),
            indexes(m@, folders@, folder_table(views.take(i as int)), i as int),
    {
        assert(views.take(i + 1).drop_last() =~= views.take(i as int));
        assert(views.take(i + 1).last() == folders@[i as int]@);
        m.insert(folders[i].id_folder, i);
    }
    assert(views.take(n as int) =~= views);
    m
}

/// A climb carried out on the folder list.
pub enum Walked {
    Slugs(Vec<String>),
    Missing,
    Unfinished,
}

impl View for Walked {
    type V = Climb;

    open spec fn view(&self) -> Climb {
        match self {
            Walked::Slugs(v) => Climb::Slugs(texts(v@)),
            Walked::Missing => Climb::Missing,
            Walked::Unfinished => Climb::Unfinished,
        }
    }
}

/// `c` with `suffix` put after its slugs.
pub open spec fn followed_by(c: Climb, suffix: Seq<Seq<char>>) -> Climb {
    match c {
        Climb::Slugs(p) => Climb::Slugs(p + suffix),
        other => other,
    }
}

/// Climbs from the folder `start` to the top of the tree, at most as many
/// steps as there are folders in the list.
pub fn climb_from(folders: &Vec<FolderBranch>, index: &HashMap<u128, usize>, start: u128) -> (r:
    Walked)
    requires
        indexes(index@, folders@, folder_table(folder_views(folders@)), folders.len() as int),
    ensures
        r@ == climb(folder_table(folder_views(folders@)), Some(start), folders.len() as nat),
{
    broadcast use vstd::std_specs::hash::group_hash_axioms;

    let ghost t = folder_table(folder_views(folders@));
    let n = folders.len();
    let mut slugs: Vec<String> = Vec::new();
    let mut current: Option<u128> = Some(start);
    let mut steps: usize = 0;
    assert(Seq::<Seq<char>>::empty() + texts(slugs@) =~= texts(slugs@));
    loop
        invariant
            steps <= n,
            n == folders.len(),
            t == folder_table(folder_views(folders@)),
            indexes(index@, folders@, t, n as int),
            climb(t, Some(start), n as nat) == followed_by(
                climb(t, current, (n - steps) as nat),
                texts(slugs@),
            ),
        ensures
            current is None,
            climb(t, Some(start), n as nat) == followed_by(
                climb(t, current, (n - steps) as nat),
                texts(slugs@),
            ),
        decreases n - steps,
    {
        match current {
            None => break,
            Some(id) => {
                match index.get(&id) {
                    None => {
                        return Walked::Missing;
                    },
                    Some(i) => {
                        if steps == n {
                            return Walked::Unfinished;
                        }
                        let f = &folders[*i];
                        let ghost old_slugs = texts(slugs@);
                        let ghost fuel = (n - steps) as nat;
                        assert(f@ == t[id]);
                        slugs.insert(0, f.folder_slug.clone());
                        assert(texts(slugs@) =~= seq![f.folder_slug@] + old_slugs);
                        current = f.parent_id;
                        steps = steps + 1;
                        proof {
                            match climb(t, current, (fuel - 1) as nat) {
                                Climb::Slugs(p) => {
                                    assert(p.push(f.folder_slug@) + old_slugs =~= p + texts(
                                        slugs@,
                                    ));
                                },
                                _ => {},
                            }
                        }
                    },
                }
            },
        }
    }
    assert(Seq::<Seq<char>>::empty() + texts(slugs@) =~= texts(slugs@));
    Walked::Slugs(slugs)
}

} // verus!
