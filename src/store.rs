use vstd::prelude::*;
use crate::ids::{id_input, make_id, sha256_hex};
use crate::path::append_chars;
use crate::path::{
    chars_of, extension, extension_of, name_of, dir_of, namespace_of, parse_path, sep,
    split_dir_name, string_of, tail_of, first_sep, copy_range, same_chars, join_path,
    StorageLocationEnum,
};
use crate::prefix::{
    any_key_under, apart, file_same_but_path, folder_same_but_path, has_prefix, lemma_concat_prefix,
    lemma_sibling_paths_apart, lemma_split_prefix, move_file_records, move_folder_records, moved,
    rekey, rekeyed,
};
use crate::path::{is_valid_name, valid_name, last_index_of, lemma_last_index_of_range};
use crate::table::Table;
use crate::username::{
    format_username, formatted_username, is_valid_username, letters_and_numbers, sanitize_username,
    sanitized_username,
};
use crate::types::{
    copy_opt, copy_strings, same_file, same_folder, CallContext, FetchFilesAtFolderPathConfig,
    FetchFilesResult, FileMetadata, FolderMetadata, FsError, PathEntry, StateSnapshot,
};

verus! {

/// The path of a namespace's root folder: `<namespace>::`.
pub open spec fn root_path(ns: StorageLocationEnum) -> Seq<char> {
    ns.spec_name() + sep()
}

/// A folder's hierarchical part with its closing slash; empty for the root.
pub open spec fn folder_tail(t: Seq<char>) -> Seq<char> {
    if t.len() == 0 {
        t
    } else {
        t.push('/')
    }
}

/// The canonical path of the folder that `path` names.
pub open spec fn canonical_folder_path(path: Seq<char>) -> Seq<char> {
    namespace_of(path) + sep() + folder_tail(tail_of(path))
}

pub open spec fn slash_count(s: Seq<char>) -> nat
    decreases s.len(),
{
    if s.len() == 0 {
        0
    } else {
        slash_count(s.drop_last()) + if s.last() == '/' {
            1nat
        } else {
            0nat
        }
    }
}

pub proof fn lemma_slash_count_prefix(s: Seq<char>, i: int)
    requires
        0 <= i <= s.len(),
    ensures
        slash_count(s.subrange(0, i)) <= slash_count(s),
    decreases s.len() - i,
{
    if i < s.len() {
        lemma_slash_count_prefix(s, i + 1);
        assert(s.subrange(0, i + 1).drop_last() =~= s.subrange(0, i));
    } else {
        assert(s.subrange(0, i) =~= s);
    }
}

/// The identifier made from the counter value `c` in context `ctx`.
pub open spec fn candidate_id(ctx: CallContext, base: u64, i: int) -> Seq<char> {
    sha256_hex(id_input(ctx.canister_id@, ctx.time_ns, ctx.caller@, (base + i) as u64))
}

/// `b` is `a` with, at most, more subfolders appended.
pub open spec fn folder_kept(a: FolderMetadata, b: FolderMetadata) -> bool {
    &&& a.id == b.id
    &&& a.original_folder_name == b.original_folder_name
    &&& a.parent_folder_uuid == b.parent_folder_uuid
    &&& a.subfolder_uuids@.len() <= b.subfolder_uuids@.len()
    &&& b.subfolder_uuids@.subrange(0, a.subfolder_uuids@.len() as int) == a.subfolder_uuids@
    &&& a.file_uuids@ == b.file_uuids@
    &&& a.full_folder_path == b.full_folder_path
    &&& a.tags@ == b.tags@
    &&& a.owner == b.owner
    &&& a.created_date == b.created_date
    &&& a.storage_location == b.storage_location
    &&& a.last_changed_unix_ms == b.last_changed_unix_ms
    &&& a.deleted == b.deleted
}

/// The folder path that ends at the slash `t[j]`: `<ns>::<t[..=j]>`.
pub open spec fn prefix_at(ns: StorageLocationEnum, t: Seq<char>, j: int) -> Seq<char> {
    root_path(ns) + t.subrange(0, j + 1)
}

/// `p` is the root path of `ns` or the folder path that ends at a slash of `t`.
pub open spec fn on_walk(ns: StorageLocationEnum, t: Seq<char>, p: Seq<char>) -> bool {
    p == root_path(ns) || exists|j: int| 0 <= j < t.len() && t[j] == '/' && #[trigger] prefix_at(ns, t, j) == p
}

/// Every folder path on the walk down `t` is bound.
pub open spec fn walk_bound(index: Map<Seq<char>, String>, ns: StorageLocationEnum, t: Seq<char>) -> bool {
    &&& index.contains_key(root_path(ns))
    &&& forall|j: int| #![trigger prefix_at(ns, t, j)] 0 <= j < t.len() && t[j] == '/' ==> index.contains_key(prefix_at(ns, t, j))
}

/// The folder bound at the path that ends at slash `j` of `t` is the one the walk
/// makes there: named after its segment, under the folder bound at the parent path
/// and listed by it, with no files or tags, owned by `caller`, in `ns`, live.
pub open spec fn made_folder(
    folders: Map<Seq<char>, FolderMetadata>,
    index: Map<Seq<char>, String>,
    ns: StorageLocationEnum,
    t: Seq<char>,
    j: int,
    caller: Seq<char>,
) -> bool {
    let p = prefix_at(ns, t, j);
    let q = root_path(ns) + dir_of(t.subrange(0, j));
    let f = folders[index[p]@];
    &&& index.contains_key(p)
    &&& folders.contains_key(index[p]@)
    &&& f.full_folder_path@ == p
    &&& f.original_folder_name@ == name_of(t.subrange(0, j))
    &&& index.contains_key(q)
    &&& folders.contains_key(index[q]@)
    &&& opt_is(f.parent_folder_uuid, index[q]@)
    &&& lists(folders[index[q]@].subfolder_uuids@, index[p]@)
    &&& f.file_uuids@.len() == 0
    &&& f.tags@.len() == 0
    &&& f.owner@ == caller
    &&& f.storage_location == ns
    &&& !f.deleted
}

/// The folder bound at the root path of `ns` is a root the walk makes: no name,
/// no parent, no files or tags, owned by `caller`, in `ns`, live.
pub open spec fn made_root(
    folders: Map<Seq<char>, FolderMetadata>,
    index: Map<Seq<char>, String>,
    ns: StorageLocationEnum,
    caller: Seq<char>,
) -> bool {
    let f = folders[index[root_path(ns)]@];
    &&& index.contains_key(root_path(ns))
    &&& folders.contains_key(index[root_path(ns)]@)
    &&& f.full_folder_path@ == root_path(ns)
    &&& f.original_folder_name@.len() == 0
    &&& f.parent_folder_uuid is None
    &&& f.file_uuids@.len() == 0
    &&& f.tags@.len() == 0
    &&& f.owner@ == caller
    &&& f.storage_location == ns
    &&& !f.deleted
}

/// Index of the first slash of `t` at or after `k`, or -1.
pub open spec fn next_slash(t: Seq<char>, k: int) -> int
    decreases t.len() - k,
{
    if k < 0 || k >= t.len() {
        -1
    } else if t[k] == '/' {
        k
    } else {
        next_slash(t, k + 1)
    }
}

pub proof fn lemma_next_slash(t: Seq<char>, k: int)
    requires
        0 <= k,
    ensures
        next_slash(t, k) == -1 || (k <= next_slash(t, k) < t.len() && t[next_slash(t, k)] == '/'),
        next_slash(t, k) >= 0 ==> forall|m: int| k <= m < next_slash(t, k) ==> t[m] != '/',
        next_slash(t, k) == -1 ==> forall|m: int| k <= m < t.len() ==> t[m] != '/',
    decreases t.len() - k,
{
    if k < t.len() && t[k] != '/' {
        lemma_next_slash(t, k + 1);
    }
}

/// The subfolders that the walk down `t` gives the folder whose path ends at
/// slash `j` (or the root, for `j == -1`), once it has passed position `lim`:
/// the folder it creates at the next slash, if that one is new, else none.
pub open spec fn walk_children(
    index: Map<Seq<char>, String>,
    old_index: Map<Seq<char>, String>,
    ns: StorageLocationEnum,
    t: Seq<char>,
    j: int,
    lim: int,
) -> Seq<String> {
    let n = next_slash(t, j + 1);
    if 0 <= n < lim && !old_index.contains_key(prefix_at(ns, t, n)) {
        seq![index[prefix_at(ns, t, n)]]
    } else {
        Seq::empty()
    }
}

pub proof fn lemma_next_is(t: Seq<char>, k: int, i: int)
    requires
        0 <= k <= i < t.len(),
        t[i] == '/',
        forall|m: int| k <= m < i ==> t[m] != '/',
    ensures
        next_slash(t, k) == i,
    decreases i - k,
{
    if k < i {
        lemma_next_is(t, k + 1, i);
    }
}

pub proof fn lemma_walk_children_same(
    i1: Map<Seq<char>, String>,
    i2: Map<Seq<char>, String>,
    old_index: Map<Seq<char>, String>,
    ns: StorageLocationEnum,
    t: Seq<char>,
    j: int,
    lim: int,
)
    requires
        j >= -1,
        forall|k: Seq<char>| #[trigger] i1.contains_key(k) ==> i2.contains_key(k) && i2[k] == i1[k],
        0 <= next_slash(t, j + 1) < lim ==> i1.contains_key(prefix_at(ns, t, next_slash(t, j + 1))),
        next_slash(t, j + 1) != lim || old_index.contains_key(prefix_at(ns, t, lim)),
    ensures
        walk_children(i2, old_index, ns, t, j, lim + 1) == walk_children(i1, old_index, ns, t, j, lim),
{
}

/// `b` is `a` with, at most, subfolders appended, each a folder outside `old_dom`
/// and none twice.
pub open spec fn grown_by_new(a: FolderMetadata, b: FolderMetadata, old_dom: Set<Seq<char>>) -> bool {
    &&& folder_kept(a, b)
    &&& forall|k: int| a.subfolder_uuids@.len() <= k < b.subfolder_uuids@.len()
        ==> !old_dom.contains(#[trigger] b.subfolder_uuids@[k]@)
    &&& forall|k1: int, k2: int| a.subfolder_uuids@.len() <= k1 < k2 < b.subfolder_uuids@.len()
        ==> #[trigger] b.subfolder_uuids@[k1]@ != #[trigger] b.subfolder_uuids@[k2]@
}

/// Bindings kept and records kept but for appended subfolders.
pub open spec fn tree_grown(
    f1: Map<Seq<char>, FolderMetadata>,
    i1: Map<Seq<char>, String>,
    f2: Map<Seq<char>, FolderMetadata>,
    i2: Map<Seq<char>, String>,
) -> bool {
    &&& forall|k: Seq<char>| #[trigger] i1.contains_key(k) ==> i2.contains_key(k) && i2[k] == i1[k]
    &&& forall|id: Seq<char>| #[trigger] f1.contains_key(id) ==> f2.contains_key(id) && folder_kept(f1[id], f2[id])
}

/// What ensuring the walk down `t` in `ns` did to the store: every folder path
/// of the walk is bound, the only new bindings are such paths, each new one
/// holds the record the walk makes, existing bindings stay, existing folder
/// records change only by subfolders appended at the end, and files are untouched.
pub open spec fn grew_tree(s0: State, s1: State, ns: StorageLocationEnum, t: Seq<char>, caller: Seq<char>) -> bool {
    &&& walk_bound(s1.folder_index(), ns, t)
    &&& forall|p: Seq<char>| #[trigger] s1.folder_index().contains_key(p) && !s0.folder_index().contains_key(p)
        ==> on_walk(ns, t, p)
    &&& forall|p: Seq<char>| #[trigger] s0.folder_index().contains_key(p) ==> s1.folder_index().contains_key(p)
        && s1.folder_index()[p] == s0.folder_index()[p]
    &&& forall|j: int| #![trigger prefix_at(ns, t, j)] 0 <= j < t.len() && t[j] == '/'
        && !s0.folder_index().contains_key(prefix_at(ns, t, j))
        ==> made_folder(s1.folder_map(), s1.folder_index(), ns, t, j, caller)
    &&& !s0.folder_index().contains_key(root_path(ns)) ==> made_root(s1.folder_map(), s1.folder_index(), ns, caller)
    &&& forall|j: int| #![trigger prefix_at(ns, t, j)] 0 <= j < t.len() && t[j] == '/'
        && !s0.folder_index().contains_key(prefix_at(ns, t, j))
        ==> s1.folder_map()[s1.folder_index()[prefix_at(ns, t, j)]@].subfolder_uuids@
        == walk_children(s1.folder_index(), s0.folder_index(), ns, t, j, t.len() as int)
    &&& !s0.folder_index().contains_key(root_path(ns)) ==> s1.folder_map()[s1.folder_index()[root_path(ns)]@].subfolder_uuids@
        == walk_children(s1.folder_index(), s0.folder_index(), ns, t, -1, t.len() as int)
    &&& forall|id: Seq<char>| #[trigger] s0.folder_map().contains_key(id) ==> s1.folder_map().contains_key(id)
        && folder_kept(s0.folder_map()[id], s1.folder_map()[id])
        && grown_by_new(s0.folder_map()[id], s1.folder_map()[id], s0.folder_map().dom())
    &&& forall|id: Seq<char>| #[trigger] s1.folder_map().contains_key(id) && !s0.folder_map().contains_key(id)
        ==> exists|p: Seq<char>| #[trigger] s1.folder_index().contains_key(p) && !s0.folder_index().contains_key(p)
        && s1.folder_index()[p]@ == id
    &&& s1.file_map() == s0.file_map()
    &&& s1.file_index() == s0.file_index()
}

pub proof fn lemma_lists_kept(a: FolderMetadata, b: FolderMetadata, x: Seq<char>)
    requires
        folder_kept(a, b),
        lists(a.subfolder_uuids@, x),
    ensures
        lists(b.subfolder_uuids@, x),
{
    let w = choose|k: int| 0 <= k < a.subfolder_uuids@.len() && #[trigger] a.subfolder_uuids@[k]@ == x;
    assert(b.subfolder_uuids@.subrange(0, a.subfolder_uuids@.len() as int)[w] == b.subfolder_uuids@[w]);
}

pub proof fn lemma_made_folder_frame(
    f1: Map<Seq<char>, FolderMetadata>,
    i1: Map<Seq<char>, String>,
    f2: Map<Seq<char>, FolderMetadata>,
    i2: Map<Seq<char>, String>,
    ns: StorageLocationEnum,
    t: Seq<char>,
    j: int,
    caller: Seq<char>,
)
    requires
        made_folder(f1, i1, ns, t, j, caller),
        tree_grown(f1, i1, f2, i2),
    ensures
        made_folder(f2, i2, ns, t, j, caller),
{
    let p = prefix_at(ns, t, j);
    let q = root_path(ns) + dir_of(t.subrange(0, j));
    assert(i1.contains_key(p) && i1.contains_key(q));
    assert(f1.contains_key(i1[p]@) && f1.contains_key(i1[q]@));
    lemma_lists_kept(f1[i1[q]@], f2[i1[q]@], i1[p]@);
}

pub proof fn lemma_made_folder_files_frame(
    f1: Map<Seq<char>, FolderMetadata>,
    f2: Map<Seq<char>, FolderMetadata>,
    index: Map<Seq<char>, String>,
    ns: StorageLocationEnum,
    t: Seq<char>,
    j: int,
    caller: Seq<char>,
    fid: Seq<char>,
)
    requires
        made_folder(f1, index, ns, t, j, caller),
        index[prefix_at(ns, t, j)]@ != fid,
        f2.dom() == f1.dom(),
        forall|id: Seq<char>| #[trigger] f1.contains_key(id) && id != fid ==> f2[id] == f1[id],
        f1.contains_key(fid) ==> folder_kept_but_files(f1[fid], f2[fid]),
    ensures
        made_folder(f2, index, ns, t, j, caller),
        f2[index[prefix_at(ns, t, j)]@].subfolder_uuids@ == f1[index[prefix_at(ns, t, j)]@].subfolder_uuids@,
{
    let q = root_path(ns) + dir_of(t.subrange(0, j));
    let pid = index[q]@;
    let x = index[prefix_at(ns, t, j)]@;
    let w = choose|k: int| 0 <= k < f1[pid].subfolder_uuids@.len() && #[trigger] f1[pid].subfolder_uuids@[k]@ == x;
    if pid == fid {
        assert(f2[pid].subfolder_uuids@.subrange(0, f1[pid].subfolder_uuids@.len() as int)[w] == f2[pid].subfolder_uuids@[w]);
    }
}

pub proof fn lemma_made_root_frame(
    f1: Map<Seq<char>, FolderMetadata>,
    i1: Map<Seq<char>, String>,
    f2: Map<Seq<char>, FolderMetadata>,
    i2: Map<Seq<char>, String>,
    ns: StorageLocationEnum,
    caller: Seq<char>,
)
    requires
        made_root(f1, i1, ns, caller),
        tree_grown(f1, i1, f2, i2),
    ensures
        made_root(f2, i2, ns, caller),
{
    assert(i1.contains_key(root_path(ns)));
    assert(f1.contains_key(i1[root_path(ns)]@));
}

pub proof fn lemma_last_slash_step(t: Seq<char>, i: int)
    requires
        0 <= i < t.len(),
    ensures
        last_index_of(t.subrange(0, i + 1), '/') == if t[i] == '/' {
            i
        } else {
            last_index_of(t.subrange(0, i), '/')
        },
{
    assert(t.subrange(0, i + 1).drop_last() =~= t.subrange(0, i));
}

/// The in-memory store of one owner: folder and file records by id, and the
/// path index of each kind.
pub struct State {
    folders: Table<FolderMetadata>,
    files: Table<FileMetadata>,
    folder_paths: Table<String>,
    file_paths: Table<String>,
    owner: String,
    username: String,
    id_counter: u64,
}

impl State {
    /// Folder records by id.
    pub closed spec fn folder_map(&self) -> Map<Seq<char>, FolderMetadata> {
        self.folders@
    }

    /// File records by id.
    pub closed spec fn file_map(&self) -> Map<Seq<char>, FileMetadata> {
        self.files@
    }

    /// Folder path index: canonical path to folder id.
    pub closed spec fn folder_index(&self) -> Map<Seq<char>, String> {
        self.folder_paths@
    }

    /// File path index: canonical path to file id.
    pub closed spec fn file_index(&self) -> Map<Seq<char>, String> {
        self.file_paths@
    }

    pub closed spec fn owner_id(&self) -> Seq<char> {
        self.owner@
    }

    /// How many file records are stored.
    pub closed spec fn file_count(&self) -> nat {
        self.files.key_seq().len()
    }

    pub closed spec fn user_name(&self) -> Seq<char> {
        self.username@
    }

    pub closed spec fn counter(&self) -> u64 {
        self.id_counter
    }

    pub closed spec fn wf(&self) -> bool {
        &&& self.folders.wf()
        &&& self.files.wf()
        &&& self.folder_paths.wf()
        &&& self.file_paths.wf()
        &&& forall|id: Seq<char>| #[trigger]
            self.folders@.contains_key(id) ==> self.folders@[id].id@ == id
        &&& forall|id: Seq<char>| #[trigger] self.files@.contains_key(id) ==> self.files@[id].id@ == id
        &&& forall|p: Seq<char>| #[trigger]
            self.folder_paths@.contains_key(p) ==> self.folders@.contains_key(
                self.folder_paths@[p]@,
            )
        &&& forall|p: Seq<char>| #[trigger]
            self.file_paths@.contains_key(p) ==> self.files@.contains_key(self.file_paths@[p]@)
                && self.files@[self.file_paths@[p]@].full_file_path@ == p
    }

    /// Every record is stored under its own id, and every binding points to a stored record.
    pub proof fn lemma_wf_facts(&self)
        requires
            self.wf(),
        ensures
            forall|id: Seq<char>| #[trigger] self.folder_map().contains_key(id) ==> self.folder_map()[id].id@ == id,
            forall|id: Seq<char>| #[trigger] self.file_map().contains_key(id) ==> self.file_map()[id].id@ == id,
            forall|p: Seq<char>| #[trigger] self.folder_index().contains_key(p)
                ==> self.folder_map().contains_key(self.folder_index()[p]@),
            forall|p: Seq<char>| #[trigger] self.file_index().contains_key(p)
                ==> self.file_map().contains_key(self.file_index()[p]@)
                && self.file_map()[self.file_index()[p]@].full_file_path@ == p,
    {
    }

    /// The identifiers that the next `n` counter values give are fresh and distinct.
    pub closed spec fn ids_available(&self, ctx: CallContext, n: nat) -> bool {
        &&& self.id_counter + n <= u64::MAX
        &&& forall|i: int| #![auto]
            0 <= i < n ==> !self.folders@.contains_key(candidate_id(ctx, self.id_counter, i))
                && !self.files@.contains_key(candidate_id(ctx, self.id_counter, i))
        &&& forall|i: int, j: int| #![auto]
            0 <= i < j < n ==> candidate_id(ctx, self.id_counter, i) != candidate_id(ctx, self.id_counter, j)
    }

    /// A store with no records, owned by `owner`, under the user name `username`.
    pub fn new(owner: String, username: String) -> (r: Self)
        ensures
            r.wf(),
            r.owner_id() == owner@,
            r.user_name() == formatted_username(username@, owner@),
            r.folder_map().is_empty(),
            r.file_map().is_empty(),
            r.folder_index().is_empty(),
            r.file_index().is_empty(),
            r.counter() == 0,
    {
        let formatted = format_username(username.as_str(), owner.as_str());
        let r = State {
            folders: Table::new(),
            files: Table::new(),
            folder_paths: Table::new(),
            file_paths: Table::new(),
            owner,
            username: formatted,
            id_counter: 0,
        };
        proof {
            assert(r.folders@.dom() =~= Set::empty());
            assert(r.files@.dom() =~= Set::empty());
            assert(r.folder_paths@.dom() =~= Set::empty());
            assert(r.file_paths@.dom() =~= Set::empty());
        }
        r
    }

    pub fn get_owner(&self) -> (r: &String)
        ensures
            r@ == self.owner_id(),
    {
        &self.owner
    }

    pub fn get_username(&self) -> (r: &String)
        ensures
            r@ == self.user_name(),
    {
        &self.username
    }

    pub fn ping() -> (r: String)
        ensures
            r@ == seq!['p', 'o', 'n', 'g'],
    {
        let mut v: Vec<char> = Vec::new();
        v.push('p');
        v.push('o');
        v.push('n');
        v.push('g');
        proof {
            assert(v@ =~= seq!['p', 'o', 'n', 'g']);
        }
        string_of(&v)
    }

    /// Replaces the user name; only the owner may, and the sanitized name must be a
    /// non-empty run of letters and numbers.
    pub fn update_username(&mut self, ctx: &CallContext, new_username: &String) -> (r: Result<(), FsError>)
        requires
            old(self).wf(),
        ensures
            final(self).wf(),
            final(self).owner_id() == old(self).owner_id(),
            r is Err ==> *final(self) == *old(self),
            ctx.caller@ != old(self).owner_id() ==> r == Err::<(), FsError>(FsError::Unauthorized),
            ctx.caller@ == old(self).owner_id() ==> (r is Ok <==> letters_and_numbers(sanitized_username(new_username@)))
                && (r is Err ==> r == Err::<(), FsError>(FsError::InvalidUsername)),
            r is Ok ==> final(self).user_name() == formatted_username(new_username@, old(self).owner_id()),
            r is Ok ==> final(self).folder_map() == old(self).folder_map() && final(self).file_map() == old(self).file_map()
                && final(self).folder_index() == old(self).folder_index() && final(self).file_index() == old(self).file_index()
                && final(self).owner_id() == old(self).owner_id() && final(self).counter() == old(self).counter(),
    {
        if ctx.caller != self.owner {
            return Err(FsError::Unauthorized);
        }
        let clean = sanitize_username(new_username.as_str());
        if !is_valid_username(clean.as_str()) {
            return Err(FsError::InvalidUsername);
        }
        self.username = format_username(new_username.as_str(), self.owner.as_str());
        Ok(())
    }

    pub fn get_folder_by_id(&self, folder_id: &String) -> (r: Option<&FolderMetadata>)
        requires
            self.wf(),
        ensures
            match r {
                Some(f) => self.folder_map().contains_key(folder_id@) && *f == self.folder_map()[folder_id@],
                None => !self.folder_map().contains_key(folder_id@),
            },
    {
        self.folders.get(folder_id)
    }

    pub fn get_file_by_id(&self, file_id: &String) -> (r: Option<&FileMetadata>)
        requires
            self.wf(),
        ensures
            match r {
                Some(f) => self.file_map().contains_key(file_id@) && *f == self.file_map()[file_id@],
                None => !self.file_map().contains_key(file_id@),
            },
    {
        self.files.get(file_id)
    }

    pub fn get_folder_by_path(&self, path: &String) -> (r: Option<&FolderMetadata>)
        requires
            self.wf(),
        ensures
            match r {
                Some(f) => self.folder_index().contains_key(path@) && *f == self.folder_map()[self.folder_index()[path@]@]
                    && f.id@ == self.folder_index()[path@]@,
                None => !self.folder_index().contains_key(path@),
            },
    {
        match self.folder_paths.get(path) {
            Some(id) => self.folders.get(id),
            None => None,
        }
    }

    pub fn get_file_by_path(&self, path: &String) -> (r: Option<&FileMetadata>)
        requires
            self.wf(),
        ensures
            match r {
                Some(f) => self.file_index().contains_key(path@) && *f == self.file_map()[self.file_index()[path@]@]
                    && f.id@ == self.file_index()[path@]@ && f.full_file_path@ == path@,
                None => !self.file_index().contains_key(path@),
            },
    {
        match self.file_paths.get(path) {
            Some(id) => self.files.get(id),
            None => None,
        }
    }

    /// Makes the identifiers of the next `n` counter values, or `None` where one of
    /// them is already in use, two coincide, or the counter would overflow.
    fn alloc_ids(&self, ctx: &CallContext, n: u64) -> (r: Option<Vec<String>>)
        requires
            self.wf(),
        ensures
            match r {
                Some(v) => self.ids_available(*ctx, n as nat) && v@.len() == n && (forall|i: int|
                    0 <= i < n ==> #[trigger] v@[i]@ == candidate_id(*ctx, self.id_counter, i))
                    && forall|i: int| 0 <= i < n ==> (#[trigger] v@[i])@.len() == 64,
                None => !self.ids_available(*ctx, n as nat),
            },
    {
        if self.id_counter > u64::MAX - n {
            return None;
        }
        let mut v: Vec<String> = Vec::new();
        let mut i: u64 = 0;
        while i < n
            invariant
                i <= n,
                self.id_counter + n <= u64::MAX,
                self.wf(),
                v@.len() == i,
                forall|a: int| 0 <= a < i ==> #[trigger] v@[a]@ == candidate_id(*ctx, self.id_counter, a),
                forall|a: int| 0 <= a < i ==> (#[trigger] v@[a])@.len() == 64,
                forall|a: int| #![auto]
                    0 <= a < i ==> !self.folders@.contains_key(candidate_id(*ctx, self.id_counter, a))
                        && !self.files@.contains_key(candidate_id(*ctx, self.id_counter, a)),
                forall|a: int, b: int| #![auto]
                    0 <= a < b < i ==> candidate_id(*ctx, self.id_counter, a) != candidate_id(*ctx, self.id_counter, b),
            decreases n - i,
        {
            let id = make_id(ctx, self.id_counter + i);
            assert(id@ == candidate_id(*ctx, self.id_counter, i as int));
            if self.folders.contains(&id) || self.files.contains(&id) {
                return None;
            }
            let mut j: usize = 0;
            while j < v.len()
                invariant
                    j <= v@.len(),
                    i < n,
                    v@.len() == i,
                    forall|a: int| 0 <= a < j ==> v@[a]@ != id@,
                    forall|a: int| 0 <= a < i ==> #[trigger] v@[a]@ == candidate_id(*ctx, self.id_counter, a),
                    forall|a: int| 0 <= a < i ==> (#[trigger] v@[a])@.len() == 64,
                    id@ == candidate_id(*ctx, self.id_counter, i as int),
                decreases i - j,
            {
                if v[j] == id {
                    assert(v@[j as int]@ == candidate_id(*ctx, self.id_counter, j as int));
                    return None;
                }
                j = j + 1;
            }
            assert forall|a: int| 0 <= a < i implies candidate_id(*ctx, self.id_counter, a) != candidate_id(*ctx, self.id_counter, i as int) by {
                assert(v@[a]@ == candidate_id(*ctx, self.id_counter, a));
            }
            v.push(id);
            i = i + 1;
        }
        Some(v)
    }

    /// Appends `child` to the subfolders of `parent`.
    fn add_subfolder(&mut self, parent: &String, child: &String)
        requires
            old(self).wf(),
            old(self).folders@.contains_key(parent@),
        ensures
            final(self).wf(),
            final(self).folders@.dom() == old(self).folders@.dom(),
            folder_kept(old(self).folders@[parent@], final(self).folders@[parent@]),
            final(self).folders@[parent@].subfolder_uuids@ == old(self).folders@[parent@].subfolder_uuids@.push(*child),
            forall|id: Seq<char>| id != parent@ ==> #[trigger] final(self).folders@[id] == old(self).folders@[id],
            final(self).files == old(self).files,
            final(self).file_paths == old(self).file_paths,
            final(self).folder_paths == old(self).folder_paths,
            final(self).owner == old(self).owner,
            final(self).username == old(self).username,
            final(self).id_counter == old(self).id_counter,
    {
        let mut rec = match self.folders.get(parent) {
            Some(f) => f.duplicate(),
            None => {
                return;
            },
        };
        let ghost before = rec.subfolder_uuids@;
        rec.subfolder_uuids.push(child.clone());
        proof {
            assert(rec.subfolder_uuids@.subrange(0, before.len() as int) =~= before);
        }
        self.folders.insert(parent.clone(), rec);
        proof {
            assert(self.folders@.dom() =~= old(self).folders@.dom());
        }
    }

    /// Binds the root folder of `ns`, creating it with identifier `new_id` where it
    /// is missing; returns the root's id.
    fn ensure_root(&mut self, ns: StorageLocationEnum, new_id: &String, ctx: &CallContext) -> (r: String)
        requires
            old(self).wf(),
            !old(self).folders@.contains_key(new_id@),
        ensures
            final(self).wf(),
            final(self).folder_paths@.contains_key(root_path(ns)),
            final(self).folder_paths@[root_path(ns)]@ == r@,
            final(self).folders@.contains_key(r@),
            old(self).folder_paths@.contains_key(root_path(ns)) ==> *final(self) == *old(self),
            !old(self).folder_paths@.contains_key(root_path(ns)) ==> {
                &&& r == *new_id
                &&& final(self).folder_paths@ == old(self).folder_paths@.insert(root_path(ns), r)
                &&& final(self).folders@.dom() == old(self).folders@.dom().insert(r@)
                &&& forall|id: Seq<char>| id != r@ ==> #[trigger] final(self).folders@[id] == old(self).folders@[id]
                &&& made_root(final(self).folders@, final(self).folder_paths@, ns, ctx.caller@)
                &&& final(self).folders@[r@].subfolder_uuids@.len() == 0
                &&& final(self).files == old(self).files
                &&& final(self).file_paths == old(self).file_paths
                &&& final(self).owner == old(self).owner
                &&& final(self).username == old(self).username
                &&& final(self).id_counter == old(self).id_counter
            },
    {
        let mut cur = chars_of(ns.name().as_str());
        cur.push(':');
        cur.push(':');
        proof {
            assert(cur@ =~= root_path(ns));
        }
        let root = string_of(&cur);
        let found: Option<String> = match self.folder_paths.get(&root) {
            Some(id) => Some(id.clone()),
            None => None,
        };
        match found {
            Some(id) => id,
            None => {
                let rec = FolderMetadata {
                    id: new_id.clone(),
                    original_folder_name: String::new(),
                    parent_folder_uuid: None,
                    subfolder_uuids: Vec::new(),
                    file_uuids: Vec::new(),
                    full_folder_path: root.clone(),
                    tags: Vec::new(),
                    owner: ctx.caller.clone(),
                    created_date: ctx.time_ns,
                    storage_location: ns,
                    last_changed_unix_ms: ctx.time_ns / 1_000_000,
                    deleted: false,
                };
                self.folders.insert(new_id.clone(), rec);
                self.folder_paths.insert(root, new_id.clone());
                proof {
                    assert(self.folders@.dom() =~= old(self).folders@.dom().insert(new_id@));
                }
                new_id.clone()
            },
        }
    }

    /// Binds the root of `ns` and every folder path `<ns>::<t[..=j]>` where `t[j]`
    /// is a slash, creating each missing folder with the next identifier of `ids`
    /// and linking it into its parent; returns the id bound to `<ns>::<t>`.
    fn ensure_folders(
        &mut self,
        ns: StorageLocationEnum,
        t: &Vec<char>,
        ids: &Vec<String>,
        ctx: &CallContext,
    ) -> (r: String)
        requires
            old(self).wf(),
            t@.len() == 0 || t@.last() == '/',
            ids@.len() > slash_count(t@),
            forall|i: int| 0 <= i < ids@.len() ==> !old(self).folders@.contains_key(#[trigger] ids@[i]@),
            forall|i: int, j: int| 0 <= i < j < ids@.len() ==> ids@[i]@ != ids@[j]@,
        ensures
            final(self).wf(),
            final(self).folder_paths@.contains_key(root_path(ns) + t@),
            final(self).folder_paths@[root_path(ns) + t@]@ == r@,
            final(self).folders@.contains_key(r@),
            forall|p: Seq<char>| #[trigger] old(self).folder_paths@.contains_key(p) ==> final(self).folder_paths@.contains_key(p)
                && final(self).folder_paths@[p] == old(self).folder_paths@[p],
            forall|p: Seq<char>| #[trigger] final(self).folder_paths@.contains_key(p) && !old(self).folder_paths@.contains_key(p)
                ==> !old(self).folders@.contains_key(final(self).folder_paths@[p]@)
                && final(self).folders@[final(self).folder_paths@[p]@].full_folder_path@ == p,
            forall|id: Seq<char>| #[trigger] old(self).folders@.contains_key(id) ==> final(self).folders@.contains_key(id)
                && folder_kept(old(self).folders@[id], final(self).folders@[id]),
            forall|id: Seq<char>| #[trigger] final(self).folders@.contains_key(id) && !old(self).folders@.contains_key(id)
                ==> exists|i: int| 0 <= i < ids@.len() && ids@[i]@ == id,
            forall|id: Seq<char>| #[trigger] old(self).folders@.contains_key(id)
                ==> grown_by_new(old(self).folders@[id], final(self).folders@[id], old(self).folders@.dom()),
            walk_bound(final(self).folder_paths@, ns, t@),
            forall|p: Seq<char>| #[trigger] final(self).folder_paths@.contains_key(p) && !old(self).folder_paths@.contains_key(p)
                ==> on_walk(ns, t@, p),
            forall|j: int| #![trigger prefix_at(ns, t@, j)] 0 <= j < t@.len() && t@[j] == '/'
                && !old(self).folder_paths@.contains_key(prefix_at(ns, t@, j))
                ==> made_folder(final(self).folders@, final(self).folder_paths@, ns, t@, j, ctx.caller@),
            !old(self).folder_paths@.contains_key(root_path(ns)) ==> made_root(final(self).folders@, final(self).folder_paths@, ns, ctx.caller@),
            forall|j: int| #![trigger prefix_at(ns, t@, j)] 0 <= j < t@.len() && t@[j] == '/'
                && !old(self).folder_paths@.contains_key(prefix_at(ns, t@, j))
                ==> final(self).folders@[final(self).folder_paths@[prefix_at(ns, t@, j)]@].subfolder_uuids@
                == walk_children(final(self).folder_paths@, old(self).folder_paths@, ns, t@, j, t@.len() as int),
            !old(self).folder_paths@.contains_key(root_path(ns)) ==> final(self).folders@[final(self).folder_paths@[root_path(ns)]@].subfolder_uuids@
                == walk_children(final(self).folder_paths@, old(self).folder_paths@, ns, t@, -1, t@.len() as int),
            forall|id: Seq<char>| #[trigger] final(self).folders@.contains_key(id) && !old(self).folders@.contains_key(id)
                ==> exists|p: Seq<char>| #[trigger] final(self).folder_paths@.contains_key(p) && !old(self).folder_paths@.contains_key(p)
                && final(self).folder_paths@[p]@ == id,
            final(self).files == old(self).files,
            final(self).file_paths == old(self).file_paths,
            final(self).owner == old(self).owner,
            final(self).username == old(self).username,
            final(self).id_counter == old(self).id_counter,
    {
        let ghost old_folders = self.folders@;
        let ghost old_paths = self.folder_paths@;
        proof {
            assert(t@.subrange(0, 0) =~= Seq::<char>::empty());
            assert(root_path(ns) + t@.subrange(0, 0) =~= root_path(ns));
        }
        let mut parent = self.ensure_root(ns, &ids[0], ctx);
        let mut cur = chars_of(ns.name().as_str());
        cur.push(':');
        cur.push(':');
        proof {
            assert(cur@ =~= root_path(ns) + t@.subrange(0, 0));
            assert forall|id: Seq<char>| #[trigger] old_folders.contains_key(id) implies self.folders@.contains_key(id)
                && folder_kept(old_folders[id], self.folders@[id]) by {
                lemma_folder_kept_refl(old_folders[id]);
            }
        }
        let ghost mut at: Map<Seq<char>, int> = Map::empty();
        let ghost mut path_of: Map<Seq<char>, Seq<char>> = if old_paths.contains_key(root_path(ns)) {
            Map::empty()
        } else {
            map![parent@ => root_path(ns)]
        };
        proof {
            assert forall|id: Seq<char>| #[trigger] self.folders@.contains_key(id) && !old_folders.contains_key(id)
                implies path_of.contains_key(id) && self.folder_paths@.contains_key(path_of[id])
                && !old_paths.contains_key(path_of[id]) && self.folder_paths@[path_of[id]]@ == id by {
                assert(!old_paths.contains_key(root_path(ns)));
                assert(id == parent@);
            }
        }
        proof {
            assert(t@.subrange(0, 0) =~= Seq::<char>::empty());
        }
        let mut i: usize = 0;
        let mut k: usize = 1;
        let mut seg: usize = 0;
        while i < t.len()
            invariant
                seg as int == last_index_of(t@.subrange(0, i as int), '/') + 1,
                old(self).wf(),
                old_paths == old(self).folder_paths@,
                old_folders == old(self).folders@,
                forall|id: Seq<char>| #[trigger] old_folders.contains_key(id)
                    ==> grown_by_new(old_folders[id], self.folders@[id], old_folders.dom()),
                forall|id: Seq<char>, k: int| #![trigger self.folders@[id].subfolder_uuids@[k]]
                    old_folders.contains_key(id) && old_folders[id].subfolder_uuids@.len() <= k
                    < self.folders@[id].subfolder_uuids@.len() ==> self.folders@.contains_key(self.folders@[id].subfolder_uuids@[k]@),
                forall|j: int| #![trigger prefix_at(ns, t@, j)] 0 <= j < i && t@[j] == '/'
                    && !old_paths.contains_key(prefix_at(ns, t@, j))
                    ==> self.folders@[self.folder_paths@[prefix_at(ns, t@, j)]@].subfolder_uuids@
                    == walk_children(self.folder_paths@, old_paths, ns, t@, j, i as int),
                !old_paths.contains_key(root_path(ns)) ==> self.folders@[self.folder_paths@[root_path(ns)]@].subfolder_uuids@
                    == walk_children(self.folder_paths@, old_paths, ns, t@, -1, i as int),
                forall|p: Seq<char>| #[trigger] self.folder_paths@.contains_key(p) && !old_paths.contains_key(p)
                    ==> path_of.contains_key(self.folder_paths@[p]@) && path_of[self.folder_paths@[p]@] == p,
                seg > 0 ==> t@[seg - 1] == '/' && seg - 1 < i,
                forall|id: Seq<char>| #[trigger] self.folders@.contains_key(id) && !old_folders.contains_key(id)
                    ==> path_of.contains_key(id) && self.folder_paths@.contains_key(path_of[id])
                    && !old_paths.contains_key(path_of[id]) && self.folder_paths@[path_of[id]]@ == id,
                self.folder_paths@.contains_key(root_path(ns)),
                forall|j: int| #![trigger prefix_at(ns, t@, j)] 0 <= j < i && t@[j] == '/'
                    ==> self.folder_paths@.contains_key(prefix_at(ns, t@, j)),
                forall|j: int| #![trigger prefix_at(ns, t@, j)] 0 <= j < i && t@[j] == '/'
                    && !old_paths.contains_key(prefix_at(ns, t@, j))
                    ==> made_folder(self.folders@, self.folder_paths@, ns, t@, j, ctx.caller@),
                !old_paths.contains_key(root_path(ns)) ==> made_root(self.folders@, self.folder_paths@, ns, ctx.caller@),
                forall|p: Seq<char>| #[trigger] self.folder_paths@.contains_key(p) && !old_paths.contains_key(p)
                    && p != root_path(ns) ==> at.contains_key(p) && 0 <= at[p] < i && t@[at[p]] == '/'
                    && prefix_at(ns, t@, at[p]) == p,
                self.wf(),
                i <= t@.len(),
                seg <= i,
                ids@.len() > slash_count(t@),
                k == 1 + slash_count(t@.subrange(0, i as int)),
                cur@ == root_path(ns) + t@.subrange(0, i as int),
                self.folder_paths@.contains_key(root_path(ns) + t@.subrange(0, seg as int)),
                self.folder_paths@[root_path(ns) + t@.subrange(0, seg as int)]@ == parent@,
                self.folders@.contains_key(parent@),
                forall|j: int| seg <= j < i ==> t@[j] != '/',
                forall|p: Seq<char>| #[trigger] old_paths.contains_key(p) ==> self.folder_paths@.contains_key(p)
                    && self.folder_paths@[p] == old_paths[p],
                forall|p: Seq<char>| #[trigger] self.folder_paths@.contains_key(p) && !old_paths.contains_key(p)
                    ==> !old_folders.contains_key(self.folder_paths@[p]@)
                    && self.folders@[self.folder_paths@[p]@].full_folder_path@ == p,
                forall|id: Seq<char>| #[trigger] old_folders.contains_key(id) ==> self.folders@.contains_key(id)
                    && folder_kept(old_folders[id], self.folders@[id]),
                forall|id: Seq<char>| #[trigger] self.folders@.contains_key(id) && !old_folders.contains_key(id)
                    ==> exists|a: int| 0 <= a < k && ids@[a]@ == id,
                forall|a: int| k <= a < ids@.len() ==> !self.folders@.contains_key(#[trigger] ids@[a]@),
                forall|a: int, b: int| 0 <= a < b < ids@.len() ==> ids@[a]@ != ids@[b]@,
                forall|a: int| 0 <= a < ids@.len() ==> !old_folders.contains_key(#[trigger] ids@[a]@),
                self.files == old(self).files,
                self.file_paths == old(self).file_paths,
                self.owner == old(self).owner,
                self.username == old(self).username,
                self.id_counter == old(self).id_counter,
            decreases t@.len() - i,
        {
            let c = t[i];
            cur.push(c);
            proof {
                assert(t@.subrange(0, i + 1).drop_last() =~= t@.subrange(0, i as int));
                assert(cur@ =~= root_path(ns) + t@.subrange(0, i + 1));
                lemma_slash_count_prefix(t@, i + 1);
                if c == '/' {
                    assert(slash_count(t@.subrange(0, i + 1)) == slash_count(t@.subrange(0, i as int)) + 1);
                } else {
                    assert(slash_count(t@.subrange(0, i + 1)) == slash_count(t@.subrange(0, i as int)));
                }
            }
            let ghost before = self.folders@;
            let ghost before_paths = self.folder_paths@;
            proof {
                lemma_last_slash_step(t@, i as int);
                lemma_last_index_of_range(t@.subrange(0, i as int), '/');
                assert(t@.subrange(0, i as int).subrange(0, seg as int) =~= t@.subrange(0, seg as int));
                assert(t@.subrange(0, i as int).subrange(seg as int, i as int) =~= t@.subrange(seg as int, i as int));
            }
            let ghost mut made_new = false;
            let ghost parent0 = parent@;
            let ghost seg0 = seg as int;
            if c == '/' {
                let p = string_of(&cur);
                let found: Option<String> = match self.folder_paths.get(&p) {
                    Some(id) => Some(id.clone()),
                    None => None,
                };
                match found {
                    Some(id) => {
                        proof {
                            if !old_paths.contains_key(p@) {
                                assert(p@ != root_path(ns));
                                let a = at[p@];
                                assert(prefix_at(ns, t@, a).len() == p@.len());
                            }
                        }
                        parent = id;
                    },
                    None => {
                        let ghost parent_before = parent@;
                        let id = ids[k].clone();
                        let name = string_of(&copy_range(t, seg, i));
                        let rec = FolderMetadata {
                            id: id.clone(),
                            original_folder_name: name,
                            parent_folder_uuid: Some(parent.clone()),
                            subfolder_uuids: Vec::new(),
                            file_uuids: Vec::new(),
                            full_folder_path: p.clone(),
                            tags: Vec::new(),
                            owner: ctx.caller.clone(),
                            created_date: ctx.time_ns,
                            storage_location: ns,
                            last_changed_unix_ms: ctx.time_ns / 1_000_000,
                            deleted: false,
                        };
                        self.folders.insert(id.clone(), rec);
                        self.folder_paths.insert(p, id.clone());
                        self.add_subfolder(&parent, &id);
                        proof {
                            at = at.insert(p@, i as int);
                            path_of = path_of.insert(id@, p@);
                            made_new = true;
                            let v = self.folders@[parent_before].subfolder_uuids@;
                            assert(v[v.len() - 1]@ == id@);
                            assert(p@ == prefix_at(ns, t@, i as int));
                            assert(dir_of(t@.subrange(0, i as int)) =~= t@.subrange(0, seg as int));
                            assert(name_of(t@.subrange(0, i as int)) =~= t@.subrange(seg as int, i as int));
                            let q = root_path(ns) + dir_of(t@.subrange(0, i as int));
                            assert(self.folder_paths@.contains_key(q));
                            assert(self.folder_paths@[q]@ == parent_before);
                            assert(parent_before != id@);
                            assert(self.folders@[id@].original_folder_name@ == name_of(t@.subrange(0, i as int)));
                            assert(lists(v, id@));
                            assert(made_folder(self.folders@, self.folder_paths@, ns, t@, i as int, ctx.caller@));
                        }
                        parent = id;
                    },
                }
                assert(k < ids.len());
                k = k + 1;
                seg = i + 1;
            }
            proof {
                assert forall|id: Seq<char>| #[trigger] before.contains_key(id) implies self.folders@.contains_key(id)
                    && folder_kept(before[id], self.folders@[id]) by {
                    lemma_folder_kept_refl(before[id]);
                    lemma_folder_kept_trans(before[id], before[id], self.folders@[id]);
                }
                assert(tree_grown(before, before_paths, self.folders@, self.folder_paths@));
                assert forall|id: Seq<char>| #[trigger] old_folders.contains_key(id)
                    implies grown_by_new(old_folders[id], self.folders@[id], old_folders.dom()) by {
                    let a = old_folders[id];
                    let b0 = before[id];
                    let b1 = self.folders@[id];
                    lemma_folder_kept_trans(a, b0, b1);
                    if b1.subfolder_uuids@ != b0.subfolder_uuids@ {
                        assert(made_new && id == parent0);
                        assert(b1.subfolder_uuids@ == b0.subfolder_uuids@.push(b1.subfolder_uuids@.last()));
                    }
                }
                assert forall|id: Seq<char>, k: int| #![trigger self.folders@[id].subfolder_uuids@[k]]
                    old_folders.contains_key(id) && old_folders[id].subfolder_uuids@.len() <= k
                    < self.folders@[id].subfolder_uuids@.len() implies self.folders@.contains_key(self.folders@[id].subfolder_uuids@[k]@) by {
                    if k < before[id].subfolder_uuids@.len() {
                        assert(self.folders@[id].subfolder_uuids@[k] == before[id].subfolder_uuids@[k]);
                    }
                }
                assert forall|id: Seq<char>| #[trigger] old_folders.contains_key(id) implies self.folders@.contains_key(id)
                    && folder_kept(old_folders[id], self.folders@[id]) by {
                    lemma_folder_kept_trans(old_folders[id], before[id], self.folders@[id]);
                }
                assert forall|j: int| #![trigger prefix_at(ns, t@, j)] 0 <= j < i && t@[j] == '/'
                    && !old_paths.contains_key(prefix_at(ns, t@, j))
                    implies made_folder(self.folders@, self.folder_paths@, ns, t@, j, ctx.caller@) by {
                    lemma_made_folder_frame(before, before_paths, self.folders@, self.folder_paths@, ns, t@, j, ctx.caller@);
                }
                if !old_paths.contains_key(root_path(ns)) {
                    lemma_made_root_frame(before, before_paths, self.folders@, self.folder_paths@, ns, ctx.caller@);
                }
                let pp = if seg0 == 0 { root_path(ns) } else { prefix_at(ns, t@, seg0 - 1) };
                assert(pp =~= root_path(ns) + t@.subrange(0, seg0));
                assert(before_paths.contains_key(pp) && before_paths[pp]@ == parent0);
                if c == '/' {
                    lemma_next_is(t@, seg0, i as int);
                    if !made_new {
                        assert(old_paths.contains_key(prefix_at(ns, t@, i as int)));
                    }
                }
                assert forall|j: int| #![trigger prefix_at(ns, t@, j)] 0 <= j < i + 1 && t@[j] == '/'
                    && !old_paths.contains_key(prefix_at(ns, t@, j))
                    implies self.folders@[self.folder_paths@[prefix_at(ns, t@, j)]@].subfolder_uuids@
                    == walk_children(self.folder_paths@, old_paths, ns, t@, j, i + 1) by {
                    lemma_next_slash(t@, j + 1);
                    if j == i {
                        assert(self.folders@[self.folder_paths@[prefix_at(ns, t@, j)]@].subfolder_uuids@.len() == 0);
                    } else {
                        let fj = before_paths[prefix_at(ns, t@, j)]@;
                        assert(self.folder_paths@[prefix_at(ns, t@, j)]@ == fj);
                        if j == seg0 - 1 {
                            if made_new {
                                assert(walk_children(before_paths, old_paths, ns, t@, j, i as int) =~= Seq::<String>::empty());
                            } else {
                                lemma_walk_children_same(before_paths, self.folder_paths@, old_paths, ns, t@, j, i as int);
                            }
                        } else {
                            if next_slash(t@, j + 1) == i {
                                assert(j < seg0 - 1 || j >= seg0);
                                assert(t@[seg0 - 1] == '/' || j >= seg0);
                            }
                            lemma_walk_children_same(before_paths, self.folder_paths@, old_paths, ns, t@, j, i as int);
                            if made_new {
                                assert(path_of[fj] == prefix_at(ns, t@, j));
                                if fj == parent0 {
                                    if old_paths.contains_key(pp) {
                                        assert(before_paths[pp] == old_paths[pp]);
                                        assert(old(self).folder_paths@.contains_key(pp));
                                        assert(old_folders.contains_key(parent0));
                                    } else {
                                        assert(path_of[parent0] == pp);
                                        assert(pp.len() != prefix_at(ns, t@, j).len());
                                    }
                                }
                                assert(self.folders@[fj] == before[fj]);
                            }
                        }
                    }
                }
                if !old_paths.contains_key(root_path(ns)) {
                    let fr = before_paths[root_path(ns)]@;
                    lemma_next_slash(t@, 0);
                    if seg0 == 0 {
                        if made_new {
                            assert(walk_children(before_paths, old_paths, ns, t@, -1, i as int) =~= Seq::<String>::empty());
                        } else {
                            lemma_walk_children_same(before_paths, self.folder_paths@, old_paths, ns, t@, -1, i as int);
                        }
                    } else {
                        lemma_walk_children_same(before_paths, self.folder_paths@, old_paths, ns, t@, -1, i as int);
                        if made_new {
                            if fr == parent0 {
                                if old_paths.contains_key(pp) {
                                    assert(before_paths[pp] == old_paths[pp]);
                                        assert(old(self).folder_paths@.contains_key(pp));
                                        assert(old_folders.contains_key(parent0));
                                } else {
                                    assert(path_of[parent0] == pp);
                                    assert(path_of[fr] == root_path(ns));
                                }
                            }
                            assert(self.folders@[fr] == before[fr]);
                        }
                    }
                }
            }
            i = i + 1;
        }
        proof {
            if t@.len() > 0 {
                assert(t@[t@.len() - 1] == '/');
            }
            assert(t@.subrange(0, t@.len() as int) =~= t@);
            assert forall|p: Seq<char>| #[trigger] self.folder_paths@.contains_key(p) && !old_paths.contains_key(p)
                implies on_walk(ns, t@, p) by {
                if p != root_path(ns) {
                    assert(prefix_at(ns, t@, at[p]) == p);
                }
            }
            assert forall|id: Seq<char>| #[trigger] self.folders@.contains_key(id) && !old_folders.contains_key(id)
                implies exists|p: Seq<char>| #[trigger] self.folder_paths@.contains_key(p) && !old_paths.contains_key(p)
                && self.folder_paths@[p]@ == id by {
                assert(self.folder_paths@.contains_key(path_of[id]));
            }
        }
        parent
    }
}

/// `b` is `a` with, at most, more subfolders appended and another file list.
pub open spec fn folder_kept_but_files(a: FolderMetadata, b: FolderMetadata) -> bool {
    &&& a.id == b.id
    &&& a.original_folder_name == b.original_folder_name
    &&& a.parent_folder_uuid == b.parent_folder_uuid
    &&& a.subfolder_uuids@.len() <= b.subfolder_uuids@.len()
    &&& b.subfolder_uuids@.subrange(0, a.subfolder_uuids@.len() as int) == a.subfolder_uuids@
    &&& a.full_folder_path == b.full_folder_path
    &&& a.tags@ == b.tags@
    &&& a.owner == b.owner
    &&& a.created_date == b.created_date
    &&& a.storage_location == b.storage_location
    &&& a.last_changed_unix_ms == b.last_changed_unix_ms
    &&& a.deleted == b.deleted
}

pub proof fn lemma_kept_then_files(a: FolderMetadata, b: FolderMetadata, c: FolderMetadata)
    requires
        folder_kept(a, b),
        folder_kept_but_files(b, c),
    ensures
        folder_kept_but_files(a, c),
{
    let n = a.subfolder_uuids@.len() as int;
    let bl = b.subfolder_uuids@.len() as int;
    assert(c.subfolder_uuids@.subrange(0, n) =~= c.subfolder_uuids@.subrange(0, bl).subrange(0, n));
}

pub proof fn lemma_folder_kept_refl(a: FolderMetadata)
    ensures
        folder_kept(a, a),
{
    assert(a.subfolder_uuids@.subrange(0, a.subfolder_uuids@.len() as int) =~= a.subfolder_uuids@);
}

pub proof fn lemma_folder_kept_trans(a: FolderMetadata, b: FolderMetadata, c: FolderMetadata)
    requires
        folder_kept(a, b),
        folder_kept(b, c) || same_folder(b, c),
    ensures
        folder_kept(a, c),
{
    let n = a.subfolder_uuids@.len() as int;
    let bl = b.subfolder_uuids@.len() as int;
    if folder_kept(b, c) {
        assert(c.subfolder_uuids@.subrange(0, n) =~= c.subfolder_uuids@.subrange(0, bl).subrange(0, n));
    } else {
        assert(c.subfolder_uuids@ == b.subfolder_uuids@);
        assert(c.subfolder_uuids@.subrange(0, n) =~= b.subfolder_uuids@.subrange(0, n));
    }
}

/// `path` holds a `::` and its namespace word is that of `ns`.
pub open spec fn path_in(path: Seq<char>, ns: StorageLocationEnum) -> bool {
    first_sep(path) >= 0 && namespace_of(path) == ns.spec_name()
}

fn count_slashes(t: &Vec<char>) -> (r: usize)
    ensures
        r == slash_count(t@),
{
    let mut n: usize = 0;
    let mut i: usize = 0;
    while i < t.len()
        invariant
            i <= t@.len(),
            n == slash_count(t@.subrange(0, i as int)),
            n <= i,
        decreases t@.len() - i,
    {
        proof {
            assert(t@.subrange(0, i + 1).drop_last() =~= t@.subrange(0, i as int));
        }
        if t[i] == '/' {
            n = n + 1;
        }
        i = i + 1;
    }
    proof {
        assert(t@.subrange(0, t@.len() as int) =~= t@);
    }
    n
}

impl State {
    proof fn lemma_unchanged_grew(&self, ns: StorageLocationEnum, t: Seq<char>, caller: Seq<char>)
        requires
            self.wf(),
            walk_bound(self.folder_paths@, ns, t),
        ensures
            grew_tree(*self, *self, ns, t, caller),
    {
        assert forall|id: Seq<char>| #[trigger] self.folder_map().contains_key(id) implies self.folder_map().contains_key(id)
            && folder_kept(self.folder_map()[id], self.folder_map()[id]) by {
            lemma_folder_kept_refl(self.folder_map()[id]);
        }
    }

    /// Whether every folder path on the walk down `t` in `ns` is bound.
    fn walk_is_bound(&self, ns: StorageLocationEnum, t: &Vec<char>) -> (r: bool)
        requires
            self.wf(),
        ensures
            r == walk_bound(self.folder_paths@, ns, t@),
    {
        let mut cur = chars_of(ns.name().as_str());
        cur.push(':');
        cur.push(':');
        proof {
            assert(cur@ =~= root_path(ns) + t@.subrange(0, 0));
            assert(root_path(ns) + t@.subrange(0, 0) =~= root_path(ns));
        }
        if !self.folder_paths.contains(&string_of(&cur)) {
            return false;
        }
        let mut i: usize = 0;
        while i < t.len()
            invariant
                self.wf(),
                i <= t@.len(),
                cur@ == root_path(ns) + t@.subrange(0, i as int),
                self.folder_paths@.contains_key(root_path(ns)),
                forall|j: int| #![trigger prefix_at(ns, t@, j)] 0 <= j < i && t@[j] == '/'
                    ==> self.folder_paths@.contains_key(prefix_at(ns, t@, j)),
            decreases t@.len() - i,
        {
            cur.push(t[i]);
            proof {
                assert(cur@ =~= root_path(ns) + t@.subrange(0, i + 1));
            }
            if t[i] == '/' && !self.folder_paths.contains(&string_of(&cur)) {
                proof {
                    assert(cur@ == prefix_at(ns, t@, i as int));
                }
                return false;
            }
            i = i + 1;
        }
        true
    }
}

impl State {
    /// Creates the folder that `full_folder_path` names, and every missing ancestor.
    /// The root path of a namespace gives back its root folder, created on first use.
    pub fn create_folder(
        &mut self,
        ctx: &CallContext,
        full_folder_path: &String,
        storage_location: StorageLocationEnum,
    ) -> (r: Result<FolderMetadata, FsError>)
        requires
            old(self).wf(),
        ensures
            final(self).wf(),
            final(self).owner_id() == old(self).owner_id(),
            final(self).user_name() == old(self).user_name(),
            r is Err ==> *final(self) == *old(self),
            ctx.caller@ != old(self).owner_id() ==> r == Err::<FolderMetadata, FsError>(FsError::Unauthorized),
            ctx.caller@ == old(self).owner_id() && !path_in(full_folder_path@, storage_location)
                ==> r == Err::<FolderMetadata, FsError>(FsError::InvalidPath),
            ctx.caller@ == old(self).owner_id() && path_in(full_folder_path@, storage_location)
                && tail_of(full_folder_path@).len() > 0
                && old(self).folder_index().contains_key(canonical_folder_path(full_folder_path@))
                ==> r == Err::<FolderMetadata, FsError>(FsError::FolderAlreadyExists),
            ctx.caller@ == old(self).owner_id() && path_in(full_folder_path@, storage_location)
                && !(tail_of(full_folder_path@).len() > 0
                && old(self).folder_index().contains_key(canonical_folder_path(full_folder_path@)))
                && walk_bound(old(self).folder_index(), storage_location, folder_tail(tail_of(full_folder_path@)))
                ==> r is Ok && *final(self) == *old(self),
            ctx.caller@ == old(self).owner_id() && path_in(full_folder_path@, storage_location)
                && !(tail_of(full_folder_path@).len() > 0
                && old(self).folder_index().contains_key(canonical_folder_path(full_folder_path@)))
                && !walk_bound(old(self).folder_index(), storage_location, folder_tail(tail_of(full_folder_path@)))
                ==> (r is Ok <==> old(self).ids_available(*ctx, slash_count(folder_tail(tail_of(full_folder_path@))) + 1))
                && (r is Err ==> r == Err::<FolderMetadata, FsError>(FsError::IdUnavailable))
                && (r is Ok ==> final(self).counter() == old(self).counter() + slash_count(folder_tail(tail_of(full_folder_path@))) + 1),
            r matches Ok(f) ==> {
                let p = canonical_folder_path(full_folder_path@);
                &&& final(self).folder_index().contains_key(p)
                &&& final(self).folder_index()[p]@ == f.id@
                &&& final(self).folder_map().contains_key(f.id@)
                &&& same_folder(final(self).folder_map()[f.id@], f)
                &&& (tail_of(full_folder_path@).len() > 0 || !old(self).folder_index().contains_key(p))
                    ==> !old(self).folder_map().contains_key(f.id@) && f.full_folder_path@ == p
                &&& grew_tree(*old(self), *final(self), storage_location, folder_tail(tail_of(full_folder_path@)), ctx.caller@)
            },
    {
        if ctx.caller != self.owner {
            return Err(FsError::Unauthorized);
        }
        let (ns, t) = match parse_path(full_folder_path.as_str()) {
            None => {
                return Err(FsError::InvalidPath);
            },
            Some(x) => x,
        };
        let name = chars_of(storage_location.name().as_str());
        if !same_chars(&ns, &name) {
            return Err(FsError::InvalidPath);
        }
        let mut ft = t;
        let nonempty = ft.len() > 0;
        if nonempty {
            ft.push('/');
        }
        let full = string_of(&join_path(&name, &ft));
        proof {
            assert(ft@ == folder_tail(tail_of(full_folder_path@)));
            assert(root_path(storage_location) + ft@ =~= name@ + sep() + ft@);
        }
        if nonempty && self.folder_paths.contains(&full) {
            return Err(FsError::FolderAlreadyExists);
        }
        if self.walk_is_bound(storage_location, &ft) {
            proof {
                if nonempty {
                    assert(ft@.subrange(0, ft@.len() as int) =~= ft@);
                    assert(prefix_at(storage_location, ft@, ft@.len() - 1) == full@);
                }
                self.lemma_unchanged_grew(storage_location, ft@, ctx.caller@);
            }
            let existing = match self.folder_paths.get(&full) {
                Some(x) => x.clone(),
                None => {
                    return Err(FsError::NotFound);
                },
            };
            return match self.folders.get(&existing) {
                Some(f) => Ok(f.duplicate()),
                None => Err(FsError::NotFound),
            };
        }
        let cnt = count_slashes(&ft) as u64;
        if cnt == u64::MAX {
            return Err(FsError::IdUnavailable);
        }
        let ids = match self.alloc_ids(ctx, cnt + 1) {
            None => {
                return Err(FsError::IdUnavailable);
            },
            Some(v) => v,
        };
        proof {
            assert forall|i: int| 0 <= i < ids@.len() implies !self.folders@.contains_key(#[trigger] ids@[i]@) by {
                assert(ids@[i]@ == candidate_id(*ctx, self.id_counter, i));
            }
            assert forall|i: int, j: int| 0 <= i < j < ids@.len() implies ids@[i]@ != ids@[j]@ by {
                assert(ids@[i]@ == candidate_id(*ctx, self.id_counter, i));
                assert(ids@[j]@ == candidate_id(*ctx, self.id_counter, j));
            }
        }
        let ghost s_before = *self;
        let id = self.ensure_folders(storage_location, &ft, &ids, ctx);
        self.id_counter = self.id_counter + cnt + 1;
        proof {
            assert forall|fid: Seq<char>| #[trigger] self.folder_map().contains_key(fid) && !old(self).folder_map().contains_key(fid)
                implies exists|p: Seq<char>| #[trigger] self.folder_index().contains_key(p) && !old(self).folder_index().contains_key(p)
                && self.folder_index()[p]@ == fid by {
                assert(self.folders@.contains_key(fid) && !s_before.folders@.contains_key(fid));
                let p = choose|p: Seq<char>| #[trigger] self.folder_paths@.contains_key(p) && !s_before.folder_paths@.contains_key(p)
                    && self.folder_paths@[p]@ == fid;
                assert(self.folder_index().contains_key(p) && !old(self).folder_index().contains_key(p));
            }
            assert(grew_tree(*old(self), *self, storage_location, ft@, ctx.caller@));
        }
        match self.folders.get(&id) {
            Some(f) => Ok(f.duplicate()),
            None => Err(FsError::NotFound),
        }
    }
}

/// The ids met walking `prior_version` from `id`, visiting at most `fuel` records
/// and stopping at an id that is not stored.
pub open spec fn prior_walk(files: Map<Seq<char>, FileMetadata>, id: Seq<char>, fuel: nat) -> Seq<Seq<char>>
    decreases fuel,
{
    if fuel == 0 || !files.contains_key(id) {
        Seq::empty()
    } else {
        seq![id] + match files[id].prior_version {
            Some(p) => prior_walk(files, p@, (fuel - 1) as nat),
            None => Seq::empty(),
        }
    }
}

pub proof fn lemma_prior_walk_stored(files: Map<Seq<char>, FileMetadata>, id: Seq<char>, fuel: nat)
    ensures
        forall|m: int| 0 <= m < prior_walk(files, id, fuel).len() ==> files.contains_key(#[trigger] prior_walk(files, id, fuel)[m]),
        fuel > 0 && files.contains_key(id) ==> prior_walk(files, id, fuel).len() > 0 && prior_walk(files, id, fuel)[0] == id,
    decreases fuel,
{
    if fuel > 0 && files.contains_key(id) {
        match files[id].prior_version {
            Some(p) => {
                lemma_prior_walk_stored(files, p@, (fuel - 1) as nat);
                let w = prior_walk(files, id, fuel);
                let rest = prior_walk(files, p@, (fuel - 1) as nat);
                assert forall|m: int| 0 <= m < w.len() implies files.contains_key(#[trigger] w[m]) by {
                    if m > 0 {
                        assert(w[m] == rest[m - 1]);
                    }
                }
            },
            None => {},
        }
    }
}

/// `s` with every id equal to `x` taken out.
pub open spec fn without(s: Seq<String>, x: Seq<char>) -> Seq<String>
    decreases s.len(),
{
    if s.len() == 0 {
        s
    } else if s.last()@ == x {
        without(s.drop_last(), x)
    } else {
        without(s.drop_last(), x).push(s.last())
    }
}

/// `s` with every id of `xs` taken out, one after the other.
pub open spec fn without_all(s: Seq<String>, xs: Seq<Seq<char>>) -> Seq<String>
    decreases xs.len(),
{
    if xs.len() == 0 {
        s
    } else {
        without(without_all(s, xs.drop_last()), xs.last())
    }
}

pub proof fn lemma_without_excludes(s: Seq<String>, x: Seq<char>)
    ensures
        forall|i: int| 0 <= i < without(s, x).len() ==> #[trigger] without(s, x)[i]@ != x,
    decreases s.len(),
{
    if s.len() > 0 {
        lemma_without_excludes(s.drop_last(), x);
        let w = without(s.drop_last(), x);
        assert forall|i: int| 0 <= i < without(s, x).len() implies #[trigger] without(s, x)[i]@ != x by {
            if s.last()@ != x && i == w.len() {
            } else {
                assert(without(s, x)[i] == w[i]);
            }
        }
    }
}

fn remove_id(v: &Vec<String>, x: &String) -> (r: Vec<String>)
    ensures
        r@ == without(v@, x@),
{
    let mut r: Vec<String> = Vec::new();
    let mut i: usize = 0;
    while i < v.len()
        invariant
            i <= v@.len(),
            r@ == without(v@.subrange(0, i as int), x@),
        decreases v@.len() - i,
    {
        proof {
            assert(v@.subrange(0, i + 1).drop_last() =~= v@.subrange(0, i as int));
        }
        if v[i] != *x {
            r.push(v[i].clone());
        }
        i = i + 1;
    }
    proof {
        assert(v@.subrange(0, v@.len() as int) =~= v@);
    }
    r
}

/// The canonical path of the file that `path` names.
pub open spec fn canonical_file_path(path: Seq<char>) -> Seq<char> {
    namespace_of(path) + sep() + tail_of(path)
}

impl State {
    /// Appends `add` to the file list of `folder`.
    fn append_file(&mut self, folder: &String, add: &String)
        requires
            old(self).wf(),
            old(self).folders@.contains_key(folder@),
        ensures
            final(self).wf(),
            final(self).folders@.dom() == old(self).folders@.dom(),
            final(self).folders@[folder@].file_uuids@ == old(self).folders@[folder@].file_uuids@.push(*add),
            folder_kept_but_files(old(self).folders@[folder@], final(self).folders@[folder@]),
            forall|id: Seq<char>| id != folder@ ==> #[trigger] final(self).folders@[id] == old(self).folders@[id],
            final(self).files == old(self).files,
            final(self).file_paths == old(self).file_paths,
            final(self).folder_paths == old(self).folder_paths,
            final(self).owner == old(self).owner,
            final(self).username == old(self).username,
            final(self).id_counter == old(self).id_counter,
    {
        let mut rec = match self.folders.get(folder) {
            Some(f) => f.duplicate(),
            None => {
                return;
            },
        };
        rec.file_uuids.push(add.clone());
        self.folders.insert(folder.clone(), rec);
        proof {
            assert(self.folders@.dom() =~= old(self).folders@.dom());
            assert(rec.subfolder_uuids@.subrange(0, rec.subfolder_uuids@.len() as int) =~= rec.subfolder_uuids@);
        }
    }

    /// Replaces the file list of `folder` by its list without `drop`, followed by `add`.
    fn relink_file(&mut self, folder: &String, add: &String, drop: &String)
        requires
            old(self).wf(),
            old(self).folders@.contains_key(folder@),
        ensures
            final(self).wf(),
            final(self).folders@.dom() == old(self).folders@.dom(),
            final(self).folders@[folder@].file_uuids@ == without(old(self).folders@[folder@].file_uuids@, drop@).push(*add),
            folder_kept_but_files(old(self).folders@[folder@], final(self).folders@[folder@]),
            final(self).folders@[folder@].full_folder_path == old(self).folders@[folder@].full_folder_path,
            final(self).folders@[folder@].subfolder_uuids@ == old(self).folders@[folder@].subfolder_uuids@,
            final(self).folders@[folder@].deleted == old(self).folders@[folder@].deleted,
            forall|id: Seq<char>| id != folder@ ==> #[trigger] final(self).folders@[id] == old(self).folders@[id],
            final(self).files == old(self).files,
            final(self).file_paths == old(self).file_paths,
            final(self).folder_paths == old(self).folder_paths,
            final(self).owner == old(self).owner,
            final(self).username == old(self).username,
            final(self).id_counter == old(self).id_counter,
    {
        let mut rec = match self.folders.get(folder) {
            Some(f) => f.duplicate(),
            None => {
                return;
            },
        };
        let mut list = remove_id(&rec.file_uuids, drop);
        list.push(add.clone());
        rec.file_uuids = list;
        proof {
            assert(rec.subfolder_uuids@.subrange(0, rec.subfolder_uuids@.len() as int) =~= rec.subfolder_uuids@);
        }
        self.folders.insert(folder.clone(), rec);
        proof {
            assert(self.folders@.dom() =~= old(self).folders@.dom());
        }
    }

    /// Sets the `next_version` of the stored file `id` to `next`.
    fn set_next_version(&mut self, id: &String, next: Option<String>)
        requires
            old(self).wf(),
            old(self).files@.contains_key(id@),
        ensures
            final(self).wf(),
            final(self).files@ == old(self).files@.insert(id@, final(self).files@[id@]),
            final(self).files@[id@].next_version == next,
            same_file_but_links(old(self).files@[id@], final(self).files@[id@]),
            final(self).files@[id@].prior_version == old(self).files@[id@].prior_version,
            final(self).folders == old(self).folders,
            final(self).file_paths == old(self).file_paths,
            final(self).folder_paths == old(self).folder_paths,
            final(self).owner == old(self).owner,
            final(self).username == old(self).username,
            final(self).id_counter == old(self).id_counter,
    {
        let mut rec = match self.files.get(id) {
            Some(f) => f.duplicate(),
            None => {
                return;
            },
        };
        rec.next_version = next;
        self.files.insert(id.clone(), rec);
    }

    /// Creates every missing folder on the way to the folder that `folder_path`
    /// names, and returns that folder's id.
    pub fn ensure_folder_structure(
        &mut self,
        ctx: &CallContext,
        folder_path: &String,
        storage_location: StorageLocationEnum,
    ) -> (r: Result<String, FsError>)
        requires
            old(self).wf(),
        ensures
            final(self).wf(),
            final(self).owner_id() == old(self).owner_id(),
            final(self).user_name() == old(self).user_name(),
            r is Err ==> *final(self) == *old(self),
            ctx.caller@ != old(self).owner_id() ==> r == Err::<String, FsError>(FsError::Unauthorized),
            ctx.caller@ == old(self).owner_id() && !path_in(folder_path@, storage_location)
                ==> r == Err::<String, FsError>(FsError::InvalidPath),
            ctx.caller@ == old(self).owner_id() && path_in(folder_path@, storage_location)
                && walk_bound(old(self).folder_index(), storage_location, folder_tail(tail_of(folder_path@)))
                ==> r is Ok && *final(self) == *old(self),
            ctx.caller@ == old(self).owner_id() && path_in(folder_path@, storage_location)
                && !walk_bound(old(self).folder_index(), storage_location, folder_tail(tail_of(folder_path@)))
                ==> (r is Ok <==> old(self).ids_available(*ctx, slash_count(folder_tail(tail_of(folder_path@))) + 1))
                && (r is Err ==> r == Err::<String, FsError>(FsError::IdUnavailable))
                && (r is Ok ==> final(self).counter() == old(self).counter() + slash_count(folder_tail(tail_of(folder_path@))) + 1),
            r matches Ok(id) ==> {
                let p = canonical_folder_path(folder_path@);
                &&& final(self).folder_index().contains_key(p)
                &&& final(self).folder_index()[p]@ == id@
                &&& final(self).folder_map().contains_key(id@)
                &&& grew_tree(*old(self), *final(self), storage_location, folder_tail(tail_of(folder_path@)), ctx.caller@)
            },
    {
        if ctx.caller != self.owner {
            return Err(FsError::Unauthorized);
        }
        let (ns, t) = match parse_path(folder_path.as_str()) {
            None => {
                return Err(FsError::InvalidPath);
            },
            Some(x) => x,
        };
        let name = chars_of(storage_location.name().as_str());
        if !same_chars(&ns, &name) {
            return Err(FsError::InvalidPath);
        }
        let mut ft = t;
        if ft.len() > 0 {
            ft.push('/');
        }
        proof {
            assert(ft@ == folder_tail(tail_of(folder_path@)));
            assert(canonical_folder_path(folder_path@) =~= root_path(storage_location) + ft@);
        }
        if self.walk_is_bound(storage_location, &ft) {
            let full = string_of(&join_path(&name, &ft));
            proof {
                assert(full@ =~= root_path(storage_location) + ft@);
                if ft@.len() > 0 {
                    assert(ft@.subrange(0, ft@.len() as int) =~= ft@);
                    assert(prefix_at(storage_location, ft@, ft@.len() - 1) == full@);
                } else {
                    assert(full@ =~= root_path(storage_location));
                }
                self.lemma_unchanged_grew(storage_location, ft@, ctx.caller@);
            }
            return match self.folder_paths.get(&full) {
                Some(x) => Ok(x.clone()),
                None => Err(FsError::NotFound),
            };
        }
        let cnt = count_slashes(&ft) as u64;
        if cnt == u64::MAX {
            return Err(FsError::IdUnavailable);
        }
        let ids = match self.alloc_ids(ctx, cnt + 1) {
            None => {
                return Err(FsError::IdUnavailable);
            },
            Some(v) => v,
        };
        proof {
            assert forall|i: int| 0 <= i < ids@.len() implies !self.folders@.contains_key(#[trigger] ids@[i]@) by {
                assert(ids@[i]@ == candidate_id(*ctx, self.id_counter, i));
            }
            assert forall|i: int, j: int| 0 <= i < j < ids@.len() implies ids@[i]@ != ids@[j]@ by {
                assert(ids@[i]@ == candidate_id(*ctx, self.id_counter, i));
                assert(ids@[j]@ == candidate_id(*ctx, self.id_counter, j));
            }
        }
        let id = self.ensure_folders(storage_location, &ft, &ids, ctx);
        self.id_counter = self.id_counter + cnt + 1;
        Ok(id)
    }

    /// Records a new revision of the file at `file_path`: version 1 on a free path,
    /// otherwise one more than the revision it supersedes, which it links back to.
    pub fn upsert_file_to_hash_tables(
        &mut self,
        ctx: &CallContext,
        file_path: &String,
        storage_location: StorageLocationEnum,
    ) -> (r: Result<String, FsError>)
        requires
            old(self).wf(),
        ensures
            final(self).wf(),
            final(self).owner_id() == old(self).owner_id(),
            final(self).user_name() == old(self).user_name(),
            r is Err ==> *final(self) == *old(self),
            ctx.caller@ != old(self).owner_id() ==> r == Err::<String, FsError>(FsError::Unauthorized),
            ctx.caller@ == old(self).owner_id() && (!path_in(file_path@, storage_location)
                || tail_of(file_path@).len() == 0) ==> r == Err::<String, FsError>(FsError::InvalidPath),
            ({
                let p = canonical_file_path(file_path@);
                ctx.caller@ == old(self).owner_id() && path_in(file_path@, storage_location)
                    && tail_of(file_path@).len() > 0 ==> {
                    if old(self).file_index().contains_key(p)
                        && old(self).file_map()[old(self).file_index()[p]@].file_version == u32::MAX {
                        r == Err::<String, FsError>(FsError::VersionLimit)
                    } else {
                        &&& (r is Ok <==> old(self).ids_available(*ctx, slash_count(dir_of(tail_of(file_path@))) + 2))
                        &&& (r is Err ==> r == Err::<String, FsError>(FsError::IdUnavailable))
                    }
                }
            }),
            r matches Ok(id) ==> {
                let p = canonical_file_path(file_path@);
                let t = tail_of(file_path@);
                let f = final(self).file_map()[id@];
                &&& !old(self).file_map().contains_key(id@)
                &&& final(self).file_index().contains_key(p)
                &&& final(self).file_index()[p]@ == id@
                &&& final(self).file_map().contains_key(id@)
                &&& f.full_file_path@ == p
                &&& f.original_file_name@ == name_of(t)
                &&& f.extension@ == extension_of(name_of(t))
                &&& f.next_version is None
                &&& f.storage_location == storage_location
                &&& f.deleted == false
                &&& final(self).folder_map().contains_key(f.folder_uuid@)
                &&& final(self).folder_map()[f.folder_uuid@].file_uuids@.last() == id
                &&& final(self).folder_index().contains_key(root_path(storage_location) + dir_of(t))
                &&& final(self).folder_index()[root_path(storage_location) + dir_of(t)]@ == f.folder_uuid@
                &&& if old(self).file_index().contains_key(p) {
                    let h = old(self).file_index()[p];
                    &&& f.file_version == old(self).file_map()[h@].file_version + 1
                    &&& f.prior_version == Some(h)
                    &&& final(self).file_map()[h@].next_version == Some(id)
                    &&& same_file_but_links(old(self).file_map()[h@], final(self).file_map()[h@])
                    &&& final(self).file_map()[h@].prior_version == old(self).file_map()[h@].prior_version
                    &&& forall|k: int| 0 <= k < final(self).folder_map()[f.folder_uuid@].file_uuids@.len()
                        ==> #[trigger] final(self).folder_map()[f.folder_uuid@].file_uuids@[k]@ != h@
                } else {
                    &&& f.file_version == 1
                    &&& f.prior_version is None
                }
                &&& final(self).file_map().dom() == old(self).file_map().dom().insert(id@)
                &&& forall|x: Seq<char>| #[trigger] old(self).file_map().contains_key(x)
                    && (!old(self).file_index().contains_key(p) || x != old(self).file_index()[p]@)
                    ==> final(self).file_map()[x] == old(self).file_map()[x]
                &&& final(self).file_index() == old(self).file_index().insert(p, final(self).file_index()[p])
                &&& final(self).counter() == old(self).counter() + slash_count(dir_of(t)) + 2
            },
            r matches Ok(id) ==> upsert_step(*old(self), *final(self), canonical_file_path(file_path@), id@),
            r matches Ok(id) ==> id@.len() == 64,
            r matches Ok(id) ==> {
                let p = canonical_file_path(file_path@);
                let d = dir_of(tail_of(file_path@));
                let fid = final(self).file_map()[id@].folder_uuid@;
                let l0 = if old(self).folder_map().contains_key(fid) {
                    old(self).folder_map()[fid].file_uuids@
                } else {
                    Seq::<String>::empty()
                };
                &&& final(self).folder_map()[fid].file_uuids@ == (if old(self).file_index().contains_key(p) {
                    without(l0, old(self).file_index()[p]@)
                } else {
                    l0
                }).push(id)
                &&& old(self).folder_map().contains_key(fid) ==> folder_kept_but_files(old(self).folder_map()[fid], final(self).folder_map()[fid])
                &&& forall|x: Seq<char>| #[trigger] old(self).folder_map().contains_key(x) && x != fid
                    ==> final(self).folder_map().contains_key(x) && folder_kept(old(self).folder_map()[x], final(self).folder_map()[x])
                    && grown_by_new(old(self).folder_map()[x], final(self).folder_map()[x], old(self).folder_map().dom())
                &&& walk_bound(final(self).folder_index(), storage_location, d)
                &&& forall|q: Seq<char>| #[trigger] final(self).folder_index().contains_key(q) && !old(self).folder_index().contains_key(q)
                    ==> on_walk(storage_location, d, q)
                &&& forall|j: int| #![trigger prefix_at(storage_location, d, j)] 0 <= j < d.len() && d[j] == '/'
                    && !old(self).folder_index().contains_key(prefix_at(storage_location, d, j))
                    && final(self).folder_index()[prefix_at(storage_location, d, j)]@ != fid
                    ==> made_folder(final(self).folder_map(), final(self).folder_index(), storage_location, d, j, ctx.caller@)
                    && final(self).folder_map()[final(self).folder_index()[prefix_at(storage_location, d, j)]@].subfolder_uuids@
                    == walk_children(final(self).folder_index(), old(self).folder_index(), storage_location, d, j, d.len() as int)
                &&& forall|x: Seq<char>| #[trigger] final(self).folder_map().contains_key(x) && !old(self).folder_map().contains_key(x)
                    ==> exists|q: Seq<char>| #[trigger] final(self).folder_index().contains_key(q)
                    && !old(self).folder_index().contains_key(q) && final(self).folder_index()[q]@ == x
                &&& forall|q: Seq<char>| #[trigger] old(self).folder_index().contains_key(q)
                    ==> final(self).folder_index().contains_key(q) && final(self).folder_index()[q] == old(self).folder_index()[q]
            },
    {
        if ctx.caller != self.owner {
            return Err(FsError::Unauthorized);
        }
        let (ns, t) = match parse_path(file_path.as_str()) {
            None => {
                return Err(FsError::InvalidPath);
            },
            Some(x) => x,
        };
        let name = chars_of(storage_location.name().as_str());
        if !same_chars(&ns, &name) || t.len() == 0 {
            return Err(FsError::InvalidPath);
        }
        let (dir, file_name) = split_dir_name(&t);
        let full = string_of(&join_path(&name, &t));
        let existing: Option<String> = match self.file_paths.get(&full) {
            Some(h) => Some(h.clone()),
            None => None,
        };
        let version: u32 = match &existing {
            Some(h) => {
                let v = match self.files.get(h) {
                    Some(f) => f.file_version,
                    None => {
                        return Err(FsError::NotFound);
                    },
                };
                if v == u32::MAX {
                    return Err(FsError::VersionLimit);
                }
                v + 1
            },
            None => 1,
        };
        proof {
            crate::path::lemma_last_index_of_range(t@, '/');
            let k = crate::path::last_index_of(t@, '/');
            if t@.len() > 0 && k >= 0 {
                assert(dir@.last() == '/');
            }
        }
        let cnt = count_slashes(&dir) as u64;
        if cnt >= u64::MAX - 1 {
            return Err(FsError::IdUnavailable);
        }
        let n = cnt + 2;
        let ids = match self.alloc_ids(ctx, n) {
            None => {
                return Err(FsError::IdUnavailable);
            },
            Some(v) => v,
        };
        proof {
            assert forall|i: int| 0 <= i < ids@.len() implies !self.folders@.contains_key(#[trigger] ids@[i]@) by {
                assert(ids@[i]@ == candidate_id(*ctx, self.id_counter, i));
            }
            assert forall|i: int, j: int| 0 <= i < j < ids@.len() implies ids@[i]@ != ids@[j]@ by {
                assert(ids@[i]@ == candidate_id(*ctx, self.id_counter, i));
                assert(ids@[j]@ == candidate_id(*ctx, self.id_counter, j));
            }
            assert(ids@[n - 1]@ == candidate_id(*ctx, self.id_counter, n - 1));
        }
        let ghost old_files = self.files@;
        let folder_id = self.ensure_folders(storage_location, &dir, &ids, ctx);
        let new_id = ids[(n - 1) as usize].clone();
        let rec = FileMetadata {
            id: new_id.clone(),
            original_file_name: string_of(&file_name),
            folder_uuid: folder_id.clone(),
            file_version: version,
            prior_version: copy_opt(&existing),
            next_version: None,
            extension: string_of(&extension(&file_name)),
            full_file_path: full.clone(),
            tags: Vec::new(),
            owner: ctx.caller.clone(),
            created_date: ctx.time_ns,
            storage_location: storage_location,
            file_size: 0,
            raw_url: String::new(),
            last_changed_unix_ms: ctx.time_ns / 1_000_000,
            deleted: false,
        };
        self.files.insert(new_id.clone(), rec);
        self.file_paths.insert(full, new_id.clone());
        let ghost mid = *self;
        proof {
            if !old(self).folders@.contains_key(folder_id@) {
                let rd = root_path(storage_location) + dir@;
                assert(!old(self).folder_paths@.contains_key(rd));
                if dir@.len() > 0 {
                    assert(dir@.subrange(0, dir@.len() as int) =~= dir@);
                    assert(prefix_at(storage_location, dir@, dir@.len() - 1) == rd);
                    assert(made_folder(self.folders@, self.folder_paths@, storage_location, dir@, dir@.len() - 1, ctx.caller@));
                } else {
                    assert(rd =~= root_path(storage_location));
                }
            }
        }
        match &existing {
            Some(h) => {
                self.set_next_version(h, Some(new_id.clone()));
                let ghost list = self.folders@[folder_id@].file_uuids@;
                self.relink_file(&folder_id, &new_id, h);
                proof {
                    lemma_without_excludes(list, h@);
                    assert(new_id@ != h@);
                }
            },
            None => {
                self.append_file(&folder_id, &new_id);
            },
        }
        proof {
            if old(self).folders@.contains_key(folder_id@) {
                lemma_kept_then_files(old(self).folders@[folder_id@], mid.folders@[folder_id@], self.folders@[folder_id@]);
            } else {
                assert(mid.folders@[folder_id@].file_uuids@ =~= Seq::<String>::empty());
            }
            assert forall|x: Seq<char>| #[trigger] old(self).folders@.contains_key(x) && x != folder_id@
                implies self.folders@.contains_key(x) && folder_kept(old(self).folders@[x], self.folders@[x])
                && grown_by_new(old(self).folders@[x], self.folders@[x], old(self).folders@.dom()) by {
                assert(self.folders@[x] == mid.folders@[x]);
            }
            assert forall|j: int| #![trigger prefix_at(storage_location, dir@, j)] 0 <= j < dir@.len() && dir@[j] == '/'
                && !old(self).folder_paths@.contains_key(prefix_at(storage_location, dir@, j))
                && self.folder_paths@[prefix_at(storage_location, dir@, j)]@ != folder_id@
                implies made_folder(self.folders@, self.folder_paths@, storage_location, dir@, j, ctx.caller@)
                && self.folders@[self.folder_paths@[prefix_at(storage_location, dir@, j)]@].subfolder_uuids@
                == walk_children(self.folder_paths@, old(self).folder_paths@, storage_location, dir@, j, dir@.len() as int) by {
                assert forall|id: Seq<char>| #[trigger] mid.folders@.contains_key(id) && id != folder_id@
                    implies self.folders@[id] == mid.folders@[id] by {}
                lemma_made_folder_files_frame(mid.folders@, self.folders@, self.folder_paths@, storage_location, dir@, j,
                    ctx.caller@, folder_id@);
            }
            assert forall|x: Seq<char>| #[trigger] self.folders@.contains_key(x) && !old(self).folders@.contains_key(x)
                implies exists|q: Seq<char>| #[trigger] self.folder_index().contains_key(q)
                && !old(self).folder_index().contains_key(q) && self.folder_index()[q]@ == x by {
                assert(mid.folders@.contains_key(x));
                let q = choose|q: Seq<char>| #[trigger] mid.folder_paths@.contains_key(q) && !old(self).folder_paths@.contains_key(q)
                    && mid.folder_paths@[q]@ == x;
                assert(self.folder_index().contains_key(q));
            }
        }
        self.id_counter = self.id_counter + n;
        proof {
            assert(self.files@.dom() =~= old_files.dom().insert(new_id@));
        }
        Ok(new_id)
    }
}

/// `b` is `a` with, at most, other version links.
pub open spec fn same_file_but_links(a: FileMetadata, b: FileMetadata) -> bool {
    &&& a.id == b.id
    &&& a.original_file_name == b.original_file_name
    &&& a.folder_uuid == b.folder_uuid
    &&& a.file_version == b.file_version
    &&& a.extension == b.extension
    &&& a.full_file_path == b.full_file_path
    &&& a.tags@ == b.tags@
    &&& a.owner == b.owner
    &&& a.created_date == b.created_date
    &&& a.storage_location == b.storage_location
    &&& a.file_size == b.file_size
    &&& a.raw_url == b.raw_url
    &&& a.last_changed_unix_ms == b.last_changed_unix_ms
    &&& a.deleted == b.deleted
}

/// `o` holds an id that `ids` contains.
pub open spec fn links_to(o: Option<String>, ids: Set<Seq<char>>) -> bool {
    match o {
        Some(s) => ids.contains(s@),
        None => false,
    }
}

/// `o` holds the id `x`.
pub open spec fn opt_is(o: Option<String>, x: Seq<char>) -> bool {
    match o {
        Some(s) => s@ == x,
        None => false,
    }
}

/// Number of keys of `ks` that `vis` does not hold.
pub open spec fn unvisited(ks: Seq<String>, vis: Map<Seq<char>, bool>) -> nat
    decreases ks.len(),
{
    if ks.len() == 0 {
        0
    } else {
        unvisited(ks.drop_last(), vis) + if vis.contains_key(ks.last()@) {
            0nat
        } else {
            1nat
        }
    }
}

pub proof fn lemma_unvisited_frame(ks: Seq<String>, v1: Map<Seq<char>, bool>, v2: Map<Seq<char>, bool>)
    requires
        forall|i: int| 0 <= i < ks.len() ==> #[trigger] v1.contains_key(ks[i]@) == v2.contains_key(ks[i]@),
    ensures
        unvisited(ks, v1) == unvisited(ks, v2),
    decreases ks.len(),
{
    if ks.len() > 0 {
        assert forall|i: int| 0 <= i < ks.drop_last().len() implies #[trigger] v1.contains_key(ks.drop_last()[i]@)
            == v2.contains_key(ks.drop_last()[i]@) by {
            assert(ks.drop_last()[i] == ks[i]);
        }
        lemma_unvisited_frame(ks.drop_last(), v1, v2);
        assert(v1.contains_key(ks[ks.len() - 1]@) == v2.contains_key(ks[ks.len() - 1]@));
    }
}

pub proof fn lemma_unvisited_insert(ks: Seq<String>, v1: Map<Seq<char>, bool>, x: Seq<char>, j: int)
    requires
        crate::table::keys_unique(ks),
        0 <= j < ks.len(),
        ks[j]@ == x,
        !v1.contains_key(x),
    ensures
        unvisited(ks, v1.insert(x, true)) + 1 == unvisited(ks, v1),
    decreases ks.len(),
{
    let v2 = v1.insert(x, true);
    let ks0 = ks.drop_last();
    if j == ks.len() - 1 {
        assert forall|i: int| 0 <= i < ks0.len() implies #[trigger] v1.contains_key(ks0[i]@) == v2.contains_key(ks0[i]@) by {
            assert(ks0[i] == ks[i]);
            assert(ks[i]@ != ks[j]@);
        }
        lemma_unvisited_frame(ks0, v1, v2);
    } else {
        assert(ks0[j] == ks[j]);
        assert forall|a: int, b: int| 0 <= a < ks0.len() && 0 <= b < ks0.len() && a != b implies ks0[a]@ != ks0[b]@ by {
            assert(ks0[a] == ks[a]);
            assert(ks0[b] == ks[b]);
        }
        lemma_unvisited_insert(ks0, v1, x, j);
        assert(ks.last()@ != x);
    }
}

/// `b` is folder `a` tombstoned: every field kept but the deletion flag, which is
/// set, and the modification time.
pub open spec fn tombstoned_copy(a: FolderMetadata, b: FolderMetadata) -> bool {
    &&& b.deleted
    &&& a.id == b.id
    &&& a.original_folder_name == b.original_folder_name
    &&& a.parent_folder_uuid == b.parent_folder_uuid
    &&& a.subfolder_uuids@ == b.subfolder_uuids@
    &&& a.file_uuids@ == b.file_uuids@
    &&& a.full_folder_path == b.full_folder_path
    &&& a.tags@ == b.tags@
    &&& a.owner == b.owner
    &&& a.created_date == b.created_date
    &&& a.storage_location == b.storage_location
}

/// `w` holds `target` and, with each folder of `m` it holds, every stored folder
/// that folder lists.
pub open spec fn closed_from(m: Map<Seq<char>, FolderMetadata>, target: Seq<char>, w: Set<Seq<char>>) -> bool {
    &&& w.contains(target)
    &&& forall|x: Seq<char>, i: int| #![trigger w.contains(x), m[x].subfolder_uuids@[i]]
        w.contains(x) && m.contains_key(x) && 0 <= i < m[x].subfolder_uuids@.len()
            && m.contains_key(m[x].subfolder_uuids@[i]@) ==> w.contains(m[x].subfolder_uuids@[i]@)
}

/// `v` is the subtree of `target` in `m`: the least set of stored folders that
/// holds `target` and every stored folder listed by one it holds.
pub open spec fn subtree_of(m: Map<Seq<char>, FolderMetadata>, target: Seq<char>, v: Set<Seq<char>>) -> bool {
    &&& closed_from(m, target, v)
    &&& forall|x: Seq<char>| #[trigger] v.contains(x) ==> m.contains_key(x)
    &&& forall|w: Set<Seq<char>>| #[trigger] closed_from(m, target, w) ==> v.subset_of(w)
}

/// What deleting the subtree `v` did: its folders are tombstoned with their other
/// fields kept, their paths unbound and the files they list purged; other folders
/// are unchanged; the only paths and files that went belong to folders of `v`;
/// the remaining files change at most in their version links.
pub open spec fn subtree_deleted(s0: State, s1: State, v: Set<Seq<char>>) -> bool {
    &&& s1.folder_map().dom() == s0.folder_map().dom()
    &&& forall|x: Seq<char>| #[trigger] s1.folder_map().contains_key(x) && !v.contains(x)
        ==> s1.folder_map()[x] == s0.folder_map()[x]
    &&& forall|x: Seq<char>| #[trigger] v.contains(x) ==> {
        &&& tombstoned_copy(s0.folder_map()[x], s1.folder_map()[x])
        &&& !s1.folder_index().contains_key(s0.folder_map()[x].full_folder_path@)
        &&& forall|i: int| 0 <= i < s0.folder_map()[x].file_uuids@.len()
            ==> !s1.file_map().contains_key(#[trigger] s0.folder_map()[x].file_uuids@[i]@)
    }
    &&& forall|q: Seq<char>| #[trigger] s1.folder_index().contains_key(q) ==> s0.folder_index().contains_key(q)
        && s1.folder_index()[q] == s0.folder_index()[q]
    &&& forall|q: Seq<char>| #[trigger] s0.folder_index().contains_key(q) && !s1.folder_index().contains_key(q)
        ==> exists|x: Seq<char>| #[trigger] v.contains(x) && s0.folder_map()[x].full_folder_path@ == q
    &&& forall|f: Seq<char>| #[trigger] s1.file_map().contains_key(f) ==> s0.file_map().contains_key(f)
        && same_file_but_links(s0.file_map()[f], s1.file_map()[f])
    &&& forall|f: Seq<char>| #[trigger] s0.file_map().contains_key(f) && !s1.file_map().contains_key(f)
        ==> exists|x: Seq<char>| #[trigger] v.contains(x) && lists(s0.folder_map()[x].file_uuids@, f)
    &&& forall|q: Seq<char>| #[trigger] s1.file_index().contains_key(q) ==> s0.file_index().contains_key(q)
        && s1.file_index()[q] == s0.file_index()[q]
}


impl State {
    /// Sets the `prior_version` of the stored file `id` to `prior`.
    fn set_prior_version(&mut self, id: &String, prior: Option<String>)
        requires
            old(self).wf(),
            old(self).files@.contains_key(id@),
        ensures
            final(self).wf(),
            final(self).files@ == old(self).files@.insert(id@, final(self).files@[id@]),
            final(self).files@[id@].prior_version == prior,
            same_file_but_links(old(self).files@[id@], final(self).files@[id@]),
            final(self).files@[id@].next_version == old(self).files@[id@].next_version,
            final(self).folders == old(self).folders,
            final(self).file_paths == old(self).file_paths,
            final(self).folder_paths == old(self).folder_paths,
            final(self).owner == old(self).owner,
            final(self).username == old(self).username,
            final(self).id_counter == old(self).id_counter,
    {
        let mut rec = match self.files.get(id) {
            Some(f) => f.duplicate(),
            None => {
                return;
            },
        };
        rec.prior_version = prior;
        self.files.insert(id.clone(), rec);
    }

    /// Purges file `id`, unbinds its path and splices it out of its version chain.
    fn purge_file(&mut self, id: &String) -> (r: Option<FileMetadata>)
        requires
            old(self).wf(),
        ensures
            final(self).wf(),
            final(self).folders == old(self).folders,
            final(self).folder_paths == old(self).folder_paths,
            final(self).owner == old(self).owner,
            final(self).username == old(self).username,
            final(self).id_counter == old(self).id_counter,
            final(self).files@.dom() == old(self).files@.dom().remove(id@),
            match r {
                None => !old(self).files@.contains_key(id@) && *final(self) == *old(self),
                Some(f) => {
                    &&& old(self).files@.contains_key(id@)
                    &&& f == old(self).files@[id@]
                    &&& final(self).file_paths@ == if old(self).file_paths@.contains_key(f.full_file_path@)
                        && old(self).file_paths@[f.full_file_path@]@ == id@ {
                        old(self).file_paths@.remove(f.full_file_path@)
                    } else {
                        old(self).file_paths@
                    }
                    &&& forall|x: Seq<char>| #[trigger] final(self).files@.contains_key(x)
                        ==> same_file_but_links(old(self).files@[x], final(self).files@[x])
                    &&& forall|x: Seq<char>| #[trigger] final(self).files@.contains_key(x)
                        && !opt_is(f.prior_version, x)
                        && !opt_is(f.next_version, x)
                        ==> final(self).files@[x] == old(self).files@[x]
                    &&& links_to(f.prior_version, final(self).files@.dom()) ==> final(self).files@[f.prior_version->0@].next_version == f.next_version
                    &&& links_to(f.next_version, final(self).files@.dom()) ==> final(self).files@[f.next_version->0@].prior_version == f.prior_version
                },
            },
    {
        let ghost s0 = *self;
        if !self.files.contains(id) {
            proof {
                assert(self.files@.dom() =~= s0.files@.dom().remove(id@));
            }
            return None;
        }
        let f = match self.files.remove(id) {
            None => {
                return None;
            },
            Some(f) => f,
        };
        let bound = match self.file_paths.get(&f.full_file_path) {
            Some(x) => *x == *id,
            None => false,
        };
        if bound {
            self.file_paths.remove(&f.full_file_path);
        }
        proof {
            assert forall|p: Seq<char>| #[trigger] self.file_paths@.contains_key(p) implies self.files@.contains_key(
                self.file_paths@[p]@) && self.files@[self.file_paths@[p]@].full_file_path@ == p by {
                assert(s0.file_paths@.contains_key(p));
                if s0.file_paths@[p]@ == id@ {
                    assert(s0.files@[id@].full_file_path@ == p);
                }
            }
            assert forall|x: Seq<char>| #[trigger] self.files@.contains_key(x)
                implies same_file_but_links(s0.files@[x], self.files@[x]) by {
            }
        }
        let ghost s1 = *self;
        match &f.prior_version {
            Some(p) => {
                if self.files.contains(p) {
                    self.set_next_version(p, copy_opt(&f.next_version));
                }
            },
            None => {},
        }
        let ghost s2 = *self;
        match &f.next_version {
            Some(n) => {
                if self.files.contains(n) {
                    self.set_prior_version(n, copy_opt(&f.prior_version));
                }
            },
            None => {},
        }
        proof {
            assert(self.files@.dom() =~= s0.files@.dom().remove(id@));
            assert forall|x: Seq<char>| #[trigger] self.files@.contains_key(x)
                implies same_file_but_links(s0.files@[x], self.files@[x]) by {
                assert(s1.files@.contains_key(x));
                assert(s2.files@.contains_key(x));
            }
        }
        Some(f)
    }

    /// Purges file `file_id`: its record goes, its path is unbound where it points to
    /// this file, and its neighbours in the version chain are linked to each other.
    pub fn delete_file(&mut self, ctx: &CallContext, file_id: &String) -> (r: Result<(), FsError>)
        requires
            old(self).wf(),
        ensures
            final(self).wf(),
            final(self).owner_id() == old(self).owner_id(),
            final(self).user_name() == old(self).user_name(),
            r is Err ==> *final(self) == *old(self),
            ctx.caller@ != old(self).owner_id() ==> r == Err::<(), FsError>(FsError::Unauthorized),
            ctx.caller@ == old(self).owner_id() ==> (r is Ok <==> old(self).file_map().contains_key(file_id@))
                && (r is Err ==> r == Err::<(), FsError>(FsError::NotFound)),
            r is Ok ==> {
                let f = old(self).file_map()[file_id@];
                &&& final(self).file_map().dom() == old(self).file_map().dom().remove(file_id@)
                &&& final(self).file_index() == if old(self).file_index().contains_key(f.full_file_path@)
                    && old(self).file_index()[f.full_file_path@]@ == file_id@ {
                    old(self).file_index().remove(f.full_file_path@)
                } else {
                    old(self).file_index()
                }
                &&& links_to(f.prior_version, final(self).file_map().dom()) ==> final(self).file_map()[f.prior_version->0@].next_version == f.next_version
                &&& links_to(f.next_version, final(self).file_map().dom()) ==> final(self).file_map()[f.next_version->0@].prior_version == f.prior_version
                &&& forall|x: Seq<char>| #[trigger] final(self).file_map().contains_key(x)
                    ==> same_file_but_links(old(self).file_map()[x], final(self).file_map()[x])
                &&& forall|x: Seq<char>| #[trigger] final(self).file_map().contains_key(x)
                    && !opt_is(f.prior_version, x)
                    && !opt_is(f.next_version, x)
                    ==> final(self).file_map()[x] == old(self).file_map()[x]
                &&& final(self).folder_map() == old(self).folder_map()
                &&& final(self).folder_index() == old(self).folder_index()
            },
    {
        if ctx.caller != self.owner {
            return Err(FsError::Unauthorized);
        }
        match self.purge_file(file_id) {
            Some(_) => Ok(()),
            None => Err(FsError::NotFound),
        }
    }

    /// Marks folder `id` as deleted, with the given modification time.
    fn tombstone(&mut self, id: &String, millis: u64)
        requires
            old(self).wf(),
            old(self).folders@.contains_key(id@),
        ensures
            final(self).wf(),
            final(self).folders@ == old(self).folders@.insert(id@, final(self).folders@[id@]),
            final(self).folders.key_seq() == old(self).folders.key_seq(),
            final(self).folders@[id@].deleted,
            final(self).folders@[id@].full_folder_path == old(self).folders@[id@].full_folder_path,
            final(self).folders@[id@].subfolder_uuids@ == old(self).folders@[id@].subfolder_uuids@,
            final(self).folders@[id@].file_uuids@ == old(self).folders@[id@].file_uuids@,
            final(self).folders@[id@].parent_folder_uuid == old(self).folders@[id@].parent_folder_uuid,
            final(self).folders@[id@].original_folder_name == old(self).folders@[id@].original_folder_name,
            tombstoned_copy(old(self).folders@[id@], final(self).folders@[id@]),
            final(self).files == old(self).files,
            final(self).file_paths == old(self).file_paths,
            final(self).folder_paths == old(self).folder_paths,
            final(self).owner == old(self).owner,
            final(self).username == old(self).username,
            final(self).id_counter == old(self).id_counter,
    {
        let mut rec = match self.folders.get(id) {
            Some(f) => f.duplicate(),
            None => {
                return;
            },
        };
        rec.deleted = true;
        rec.last_changed_unix_ms = millis;
        self.folders.insert(id.clone(), rec);
    }

    /// Unbinds the path of folder `x` and purges every file it lists.
    fn clear_folder(&mut self, x: &String)
        requires
            old(self).wf(),
            old(self).folders@.contains_key(x@),
        ensures
            final(self).wf(),
            final(self).folders == old(self).folders,
            final(self).folder_paths@ == old(self).folder_paths@.remove(old(self).folders@[x@].full_folder_path@),
            final(self).files@.dom().subset_of(old(self).files@.dom()),
            forall|i: int| 0 <= i < old(self).folders@[x@].file_uuids@.len()
                ==> !final(self).files@.contains_key(#[trigger] old(self).folders@[x@].file_uuids@[i]@),
            forall|f: Seq<char>| #[trigger] old(self).files@.contains_key(f) && !final(self).files@.contains_key(f)
                ==> lists(old(self).folders@[x@].file_uuids@, f),
            forall|f: Seq<char>| #[trigger] final(self).files@.contains_key(f)
                ==> same_file_but_links(old(self).files@[f], final(self).files@[f]),
            forall|q: Seq<char>| #[trigger] final(self).file_paths@.contains_key(q) ==> old(self).file_paths@.contains_key(q)
                && final(self).file_paths@[q] == old(self).file_paths@[q],
            final(self).owner == old(self).owner,
            final(self).username == old(self).username,
            final(self).id_counter == old(self).id_counter,
    {
        let (path, list) = match self.folders.get(x) {
            Some(f) => (f.full_folder_path.clone(), copy_strings(&f.file_uuids)),
            None => {
                return;
            },
        };
        self.folder_paths.remove(&path);
        let ghost s0 = *self;
        let mut i: usize = 0;
        while i < list.len()
            invariant
                self.wf(),
                i <= list@.len(),
                self.folders == s0.folders,
                self.folder_paths == s0.folder_paths,
                self.owner == s0.owner,
                self.username == s0.username,
                self.id_counter == s0.id_counter,
                self.files@.dom().subset_of(s0.files@.dom()),
                forall|j: int| 0 <= j < i ==> !self.files@.contains_key(#[trigger] list@[j]@),
                forall|f: Seq<char>| #[trigger] s0.files@.contains_key(f) && !self.files@.contains_key(f)
                    ==> lists(list@, f),
                forall|f: Seq<char>| #[trigger] self.files@.contains_key(f)
                    ==> same_file_but_links(s0.files@[f], self.files@[f]),
                forall|q: Seq<char>| #[trigger] self.file_paths@.contains_key(q) ==> s0.file_paths@.contains_key(q)
                    && self.file_paths@[q] == s0.file_paths@[q],
            decreases list@.len() - i,
        {
            let ghost before = self.files@;
            let ghost before_fp = self.file_paths@;
            self.purge_file(&list[i]);
            proof {
                assert forall|q: Seq<char>| #[trigger] self.file_paths@.contains_key(q) implies s0.file_paths@.contains_key(q)
                    && self.file_paths@[q] == s0.file_paths@[q] by {
                    assert(before_fp.contains_key(q));
                }
                assert forall|f: Seq<char>| #[trigger] s0.files@.contains_key(f) && !self.files@.contains_key(f)
                    implies lists(list@, f) by {
                    if before.contains_key(f) {
                        assert(list@[i as int]@ == f);
                    }
                }
            }
            i = i + 1;
        }
    }

    /// Unbinds the path of the live folder `x`, purges the files it lists and
    /// tombstones it; returns its subfolders.
    fn tombstone_one(&mut self, x: &String, millis: u64) -> (children: Vec<String>)
        requires
            old(self).wf(),
            old(self).folders@.contains_key(x@),
        ensures
            final(self).wf(),
            final(self).folders@ == old(self).folders@.insert(x@, final(self).folders@[x@]),
            final(self).folders.key_seq() == old(self).folders.key_seq(),
            final(self).folders@[x@].deleted,
            final(self).folders@[x@].full_folder_path == old(self).folders@[x@].full_folder_path,
            final(self).folders@[x@].subfolder_uuids@ == old(self).folders@[x@].subfolder_uuids@,
            final(self).folders@[x@].file_uuids@ == old(self).folders@[x@].file_uuids@,
            final(self).folder_paths@ == old(self).folder_paths@.remove(old(self).folders@[x@].full_folder_path@),
            final(self).files@.dom().subset_of(old(self).files@.dom()),
            forall|i: int| 0 <= i < old(self).folders@[x@].file_uuids@.len()
                ==> !final(self).files@.contains_key(#[trigger] old(self).folders@[x@].file_uuids@[i]@),
            forall|f: Seq<char>| #[trigger] old(self).files@.contains_key(f) && !final(self).files@.contains_key(f)
                ==> lists(old(self).folders@[x@].file_uuids@, f),
            children@ == old(self).folders@[x@].subfolder_uuids@,
            tombstoned_copy(old(self).folders@[x@], final(self).folders@[x@]),
            forall|f: Seq<char>| #[trigger] final(self).files@.contains_key(f)
                ==> same_file_but_links(old(self).files@[f], final(self).files@[f]),
            forall|q: Seq<char>| #[trigger] final(self).file_paths@.contains_key(q) ==> old(self).file_paths@.contains_key(q)
                && final(self).file_paths@[q] == old(self).file_paths@[q],
            final(self).owner == old(self).owner,
            final(self).username == old(self).username,
            final(self).id_counter == old(self).id_counter,
    {
        self.clear_folder(x);
        let children = match self.folders.get(x) {
            Some(f) => copy_strings(&f.subfolder_uuids),
            None => Vec::new(),
        };
        self.tombstone(x, millis);
        children
    }

    /// Tombstones folder `folder_id` and every folder below it, reached through the
    /// subfolder lists whatever their state, each once; unbinds their paths and purges
    /// the files they list. The folder records stay in the store.
    pub fn delete_folder(&mut self, ctx: &CallContext, folder_id: &String) -> (r: Result<(), FsError>)
        requires
            old(self).wf(),
        ensures
            final(self).wf(),
            final(self).owner_id() == old(self).owner_id(),
            final(self).user_name() == old(self).user_name(),
            r is Err ==> *final(self) == *old(self),
            ctx.caller@ != old(self).owner_id() ==> r == Err::<(), FsError>(FsError::Unauthorized),
            ctx.caller@ == old(self).owner_id() ==> (r is Ok <==> old(self).folder_map().contains_key(folder_id@))
                && (r is Err ==> r == Err::<(), FsError>(FsError::NotFound)),
            r is Ok ==> exists|v: Set<Seq<char>>| #[trigger] subtree_of(old(self).folder_map(), folder_id@, v)
                && subtree_deleted(*old(self), *final(self), v),
    {
        if ctx.caller != self.owner {
            return Err(FsError::Unauthorized);
        }
        if !self.folders.contains(folder_id) {
            return Err(FsError::NotFound);
        }
        let millis = ctx.time_ns / 1_000_000;
        let ghost s0 = *self;
        let ghost ks = self.folders.key_seq();
        let mut visited: Table<bool> = Table::new();
        let mut work: Vec<String> = Vec::new();
        work.push(folder_id.clone());
        let ghost mut path_owner: Map<Seq<char>, Seq<char>> = Map::empty();
        let ghost mut file_owner: Map<Seq<char>, Seq<char>> = Map::empty();
        proof {
            self.folders.lemma_key_seq();
            assert(visited@.dom() =~= Set::<Seq<char>>::empty());
            assert(work@[0]@ == folder_id@);
        }
        while work.len() > 0
            invariant
                self.wf(),
                visited.wf(),
                s0.wf(),
                self.folders.key_seq() == ks,
                s0.folders.key_seq() == ks,
                s0.folders@.contains_key(folder_id@),
                self.folders@.dom() == s0.folders@.dom(),
                self.owner == s0.owner,
                self.username == s0.username,
                self.id_counter == s0.id_counter,
                forall|x: Seq<char>| #[trigger] visited@.contains_key(x) ==> s0.folders@.contains_key(x),
                forall|x: Seq<char>| #[trigger] self.folders@.contains_key(x) && !visited@.contains_key(x)
                    ==> self.folders@[x] == s0.folders@[x],
                forall|x: Seq<char>| #[trigger] visited@.contains_key(x) ==> {
                    &&& tombstoned_copy(s0.folders@[x], self.folders@[x])
                    &&& !self.folder_paths@.contains_key(s0.folders@[x].full_folder_path@)
                    &&& forall|i: int| 0 <= i < s0.folders@[x].file_uuids@.len()
                        ==> !self.files@.contains_key(#[trigger] s0.folders@[x].file_uuids@[i]@)
                    &&& forall|i: int| 0 <= i < s0.folders@[x].subfolder_uuids@.len() ==> {
                        let c = #[trigger] s0.folders@[x].subfolder_uuids@[i]@;
                        !s0.folders@.contains_key(c) || visited@.contains_key(c) || exists|j: int|
                            0 <= j < work@.len() && work@[j]@ == c
                    }
                },
                visited@.contains_key(folder_id@) || exists|j: int| 0 <= j < work@.len() && work@[j]@ == folder_id@,
                forall|w: Set<Seq<char>>| #[trigger] closed_from(s0.folders@, folder_id@, w)
                    ==> (forall|x: Seq<char>| #[trigger] visited@.contains_key(x) ==> w.contains(x))
                    && (forall|j: int| 0 <= j < work@.len() && s0.folders@.contains_key(work@[j]@)
                        ==> w.contains(#[trigger] work@[j]@)),
                forall|q: Seq<char>| #[trigger] self.folder_paths@.contains_key(q)
                    ==> s0.folder_paths@.contains_key(q) && self.folder_paths@[q] == s0.folder_paths@[q],
                forall|q: Seq<char>| #[trigger] s0.folder_paths@.contains_key(q) && !self.folder_paths@.contains_key(q)
                    ==> visited@.contains_key(path_owner[q]) && s0.folders@[path_owner[q]].full_folder_path@ == q,
                forall|f: Seq<char>| #[trigger] self.files@.contains_key(f)
                    ==> s0.files@.contains_key(f) && same_file_but_links(s0.files@[f], self.files@[f]),
                forall|f: Seq<char>| #[trigger] s0.files@.contains_key(f) && !self.files@.contains_key(f)
                    ==> visited@.contains_key(file_owner[f]) && lists(s0.folders@[file_owner[f]].file_uuids@, f),
                forall|q: Seq<char>| #[trigger] self.file_paths@.contains_key(q)
                    ==> s0.file_paths@.contains_key(q) && self.file_paths@[q] == s0.file_paths@[q],
            decreases unvisited(ks, visited@), work@.len(),
        {
            let ghost before = *self;
            let ghost vis0 = visited@;
            let ghost wbefore = work@;
            let x = work.pop().unwrap();
            let ghost wrest = work@;
            proof {
                assert(wbefore[wbefore.len() - 1] == x);
                assert(wbefore =~= wrest.push(x));
            }
            let fresh = self.folders.contains(&x) && !visited.contains(&x);
            if fresh {
                let children = self.tombstone_one(&x, millis);
                visited.insert(x.clone(), true);
                let mut i: usize = 0;
                while i < children.len()
                    invariant
                        i <= children@.len(),
                        work@ == wrest + children@.subrange(0, i as int),
                    decreases children@.len() - i,
                {
                    work.push(children[i].clone());
                    proof {
                        assert(work@ =~= wrest + children@.subrange(0, i + 1));
                    }
                    i = i + 1;
                }
                proof {
                    assert(children@.subrange(0, children@.len() as int) =~= children@);
                    assert(work@ == wrest + children@);
                    assert(before.folders@[x@] == s0.folders@[x@]);
                    assert(children@ == s0.folders@[x@].subfolder_uuids@);
                    s0.folders.lemma_key_seq();
                    let j = choose|j: int| 0 <= j < ks.len() && ks[j]@ == x@;
                    lemma_unvisited_insert(ks, vis0, x@, j);
                    path_owner = Map::new(
                        |q: Seq<char>| true,
                        |q: Seq<char>| if before.folder_paths@.contains_key(q) { x@ } else { path_owner[q] },
                    );
                    file_owner = Map::new(
                        |f: Seq<char>| true,
                        |f: Seq<char>| if before.files@.contains_key(f) { x@ } else { file_owner[f] },
                    );
                    assert forall|y: Seq<char>| #[trigger] visited@.contains_key(y) implies {
                        &&& tombstoned_copy(s0.folders@[y], self.folders@[y])
                        &&& !self.folder_paths@.contains_key(s0.folders@[y].full_folder_path@)
                        &&& forall|i: int| 0 <= i < s0.folders@[y].file_uuids@.len()
                            ==> !self.files@.contains_key(#[trigger] s0.folders@[y].file_uuids@[i]@)
                        &&& forall|i: int| 0 <= i < s0.folders@[y].subfolder_uuids@.len() ==> {
                            let c = #[trigger] s0.folders@[y].subfolder_uuids@[i]@;
                            !s0.folders@.contains_key(c) || visited@.contains_key(c) || exists|j: int|
                                0 <= j < work@.len() && work@[j]@ == c
                        }
                    } by {
                        if y == x@ {
                            assert forall|i: int| 0 <= i < s0.folders@[y].subfolder_uuids@.len() implies {
                                let c = #[trigger] s0.folders@[y].subfolder_uuids@[i]@;
                                !s0.folders@.contains_key(c) || visited@.contains_key(c) || exists|j: int|
                                    0 <= j < work@.len() && work@[j]@ == c
                            } by {
                                assert(work@[wrest.len() + i] == children@[i]);
                            }
                        } else {
                            assert(vis0.contains_key(y));
                            assert(self.folders@[y] == before.folders@[y]);
                            assert forall|i: int| 0 <= i < s0.folders@[y].subfolder_uuids@.len() implies {
                                let c = #[trigger] s0.folders@[y].subfolder_uuids@[i]@;
                                !s0.folders@.contains_key(c) || visited@.contains_key(c) || exists|j: int|
                                    0 <= j < work@.len() && work@[j]@ == c
                            } by {
                                let c = s0.folders@[y].subfolder_uuids@[i]@;
                                if s0.folders@.contains_key(c) && !visited@.contains_key(c) {
                                    let jj = choose|jj: int| 0 <= jj < wbefore.len() && wbefore[jj]@ == c;
                                    assert(c != x@);
                                    assert(jj < wrest.len());
                                    assert(work@[jj] == wbefore[jj]);
                                }
                            }
                        }
                    }
                    if !visited@.contains_key(folder_id@) {
                        let jj = choose|jj: int| 0 <= jj < wbefore.len() && wbefore[jj]@ == folder_id@;
                        assert(work@[jj] == wbefore[jj]);
                    }
                    assert forall|w: Set<Seq<char>>| #[trigger] closed_from(s0.folders@, folder_id@, w)
                        implies (forall|y: Seq<char>| #[trigger] visited@.contains_key(y) ==> w.contains(y))
                        && (forall|jj: int| 0 <= jj < work@.len() && s0.folders@.contains_key(work@[jj]@)
                            ==> w.contains(#[trigger] work@[jj]@)) by {
                        assert(w.contains(wbefore[wbefore.len() - 1]@));
                        assert forall|jj: int| 0 <= jj < work@.len() && s0.folders@.contains_key(work@[jj]@)
                            implies w.contains(#[trigger] work@[jj]@) by {
                            if jj < wrest.len() {
                                assert(work@[jj] == wbefore[jj]);
                            } else {
                                let i = jj - wrest.len();
                                assert(work@[jj] == children@[i]);
                                assert(w.contains(x@) && s0.folders@.contains_key(x@));
                                assert(s0.folders@[x@].subfolder_uuids@[i] == children@[i]);
                            }
                        }
                    }
                    assert forall|q: Seq<char>| #[trigger] s0.folder_paths@.contains_key(q) && !self.folder_paths@.contains_key(q)
                        implies visited@.contains_key(path_owner[q]) && s0.folders@[path_owner[q]].full_folder_path@ == q by {
                        if before.folder_paths@.contains_key(q) {
                            assert(q == before.folders@[x@].full_folder_path@);
                        }
                    }
                    assert forall|f: Seq<char>| #[trigger] s0.files@.contains_key(f) && !self.files@.contains_key(f)
                        implies visited@.contains_key(file_owner[f]) && lists(s0.folders@[file_owner[f]].file_uuids@, f) by {
                    }
                }
            } else {
                proof {
                    assert forall|y: Seq<char>| #[trigger] visited@.contains_key(y) implies
                        forall|i: int| 0 <= i < s0.folders@[y].subfolder_uuids@.len() ==> {
                            let c = #[trigger] s0.folders@[y].subfolder_uuids@[i]@;
                            !s0.folders@.contains_key(c) || visited@.contains_key(c) || exists|j: int|
                                0 <= j < work@.len() && work@[j]@ == c
                        } by {
                        assert forall|i: int| 0 <= i < s0.folders@[y].subfolder_uuids@.len() implies {
                            let c = #[trigger] s0.folders@[y].subfolder_uuids@[i]@;
                            !s0.folders@.contains_key(c) || visited@.contains_key(c) || exists|j: int|
                                0 <= j < work@.len() && work@[j]@ == c
                        } by {
                            let c = s0.folders@[y].subfolder_uuids@[i]@;
                            if s0.folders@.contains_key(c) && !visited@.contains_key(c) {
                                let jj = choose|jj: int| 0 <= jj < wbefore.len() && wbefore[jj]@ == c;
                                assert(c != x@);
                                assert(jj < wrest.len());
                                assert(work@[jj] == wbefore[jj]);
                            }
                        }
                    }
                    if !visited@.contains_key(folder_id@) {
                        let jj = choose|jj: int| 0 <= jj < wbefore.len() && wbefore[jj]@ == folder_id@;
                        assert(folder_id@ != x@);
                        assert(work@[jj] == wbefore[jj]);
                    }
                    assert forall|w: Set<Seq<char>>| #[trigger] closed_from(s0.folders@, folder_id@, w)
                        implies (forall|y: Seq<char>| #[trigger] visited@.contains_key(y) ==> w.contains(y))
                        && (forall|jj: int| 0 <= jj < work@.len() && s0.folders@.contains_key(work@[jj]@)
                            ==> w.contains(#[trigger] work@[jj]@)) by {
                        assert forall|jj: int| 0 <= jj < work@.len() && s0.folders@.contains_key(work@[jj]@)
                            implies w.contains(#[trigger] work@[jj]@) by {
                            assert(work@[jj] == wbefore[jj]);
                        }
                    }
                }
            }
        }
        proof {
            let v = visited@.dom();
            assert(work@ =~= Seq::<String>::empty());
            assert(closed_from(s0.folders@, folder_id@, v));
            assert(subtree_of(old(self).folder_map(), folder_id@, v));
            assert forall|q: Seq<char>| #[trigger] old(self).folder_index().contains_key(q) && !self.folder_index().contains_key(q)
                implies exists|x: Seq<char>| #[trigger] v.contains(x) && old(self).folder_map()[x].full_folder_path@ == q by {
                assert(v.contains(path_owner[q]));
            }
            assert forall|f: Seq<char>| #[trigger] old(self).file_map().contains_key(f) && !self.file_map().contains_key(f)
                implies exists|x: Seq<char>| #[trigger] v.contains(x) && lists(old(self).folder_map()[x].file_uuids@, f) by {
                assert(v.contains(file_owner[f]));
            }
            assert(subtree_deleted(*old(self), *self, v));
        }
        Ok(())
    }
}

/// A folder path that can be renamed: `<ns>::<tail>/` with a non-empty tail.
pub open spec fn folder_shape_ok(p: Seq<char>) -> bool {
    first_sep(p) >= 0 && p.len() > first_sep(p) + 3 && p.last() == '/'
}

/// The hierarchical part of a folder path without its closing slash.
pub open spec fn inner_tail(p: Seq<char>) -> Seq<char> {
    p.subrange(first_sep(p) + 2, p.len() - 1)
}

/// The path a folder at `p` gets when renamed to `name`.
pub open spec fn renamed_folder_path(p: Seq<char>, name: Seq<char>) -> Seq<char> {
    p.subrange(0, first_sep(p) + 2) + dir_of(inner_tail(p)) + name + seq!['/']
}

/// The path a file at `p` gets when renamed to `name`.
pub open spec fn renamed_file_path(p: Seq<char>, name: Seq<char>) -> Seq<char> {
    p.subrange(0, first_sep(p) + 2) + dir_of(p.subrange(first_sep(p) + 2, p.len() as int)) + name
}

/// `v` lists the id `x`.
pub open spec fn lists(v: Seq<String>, x: Seq<char>) -> bool {
    exists|k: int| 0 <= k < v.len() && #[trigger] v[k]@ == x
}

fn lists_id(v: &Vec<String>, x: &String) -> (r: bool)
    ensures
        r == lists(v@, x@),
{
    let mut i: usize = 0;
    while i < v.len()
        invariant
            i <= v@.len(),
            forall|k: int| 0 <= k < i ==> v@[k]@ != x@,
        decreases v@.len() - i,
    {
        if v[i] == *x {
            return true;
        }
        i = i + 1;
    }
    false
}

impl State {
    /// Gives file `file_id` the name `new_name` in the folder it is in.
    pub fn rename_file(&mut self, ctx: &CallContext, file_id: &String, new_name: &String) -> (r: Result<(), FsError>)
        requires
            old(self).wf(),
        ensures
            final(self).wf(),
            final(self).owner_id() == old(self).owner_id(),
            final(self).user_name() == old(self).user_name(),
            r is Err ==> *final(self) == *old(self),
            ctx.caller@ != old(self).owner_id() ==> r == Err::<(), FsError>(FsError::Unauthorized),
            ctx.caller@ == old(self).owner_id() && !old(self).file_map().contains_key(file_id@)
                ==> r == Err::<(), FsError>(FsError::NotFound),
            ({
                let p = old(self).file_map()[file_id@].full_file_path@;
                let np = renamed_file_path(p, new_name@);
                ctx.caller@ == old(self).owner_id() && old(self).file_map().contains_key(file_id@)
                    ==> if first_sep(p) < 0 {
                        r == Err::<(), FsError>(FsError::StructureError)
                    } else if old(self).file_index().contains_key(np) && old(self).file_index()[np]@ != file_id@ {
                        r == Err::<(), FsError>(FsError::PathCollision)
                    } else {
                        r is Ok
                    }
            }),
            r is Ok ==> {
                let f = old(self).file_map()[file_id@];
                let np = renamed_file_path(f.full_file_path@, new_name@);
                let g = final(self).file_map()[file_id@];
                &&& final(self).file_map().dom() == old(self).file_map().dom()
                &&& forall|x: Seq<char>| x != file_id@ ==> #[trigger] final(self).file_map()[x] == old(self).file_map()[x]
                &&& g.original_file_name@ == new_name@
                &&& g.full_file_path@ == np
                &&& g.extension@ == extension_of(new_name@)
                &&& g.file_version == f.file_version
                &&& g.prior_version == f.prior_version
                &&& g.next_version == f.next_version
                &&& g.folder_uuid == f.folder_uuid
                &&& final(self).file_index().contains_key(np)
                &&& final(self).file_index()[np]@ == file_id@
                &&& final(self).file_index() == (if old(self).file_index().contains_key(f.full_file_path@)
                    && old(self).file_index()[f.full_file_path@]@ == file_id@ {
                    old(self).file_index().remove(f.full_file_path@)
                } else {
                    old(self).file_index()
                }).insert(np, final(self).file_index()[np])
                &&& final(self).folder_map() == old(self).folder_map()
                &&& final(self).folder_index() == old(self).folder_index()
            },
    {
        if ctx.caller != self.owner {
            return Err(FsError::Unauthorized);
        }
        let f = match self.files.get(file_id) {
            None => {
                return Err(FsError::NotFound);
            },
            Some(f) => f,
        };
        let pc = chars_of(f.full_file_path.as_str());
        let i = match crate::path::find_sep(&pc) {
            None => {
                return Err(FsError::StructureError);
            },
            Some(i) => i,
        };
        assert(i + 1 < pc.len());
        let rest = copy_range(&pc, i + 2, pc.len());
        let (dir, _) = split_dir_name(&rest);
        let mut np = copy_range(&pc, 0, i + 2);
        append_chars(&mut np, &dir);
        let name_chars = chars_of(new_name.as_str());
        append_chars(&mut np, &name_chars);
        let nps = string_of(&np);
        let clash = match self.file_paths.get(&nps) {
            Some(x) => *x != *file_id,
            None => false,
        };
        if clash {
            return Err(FsError::PathCollision);
        }
        let mut rec = f.duplicate();
        let old_path = f.full_file_path.clone();
        rec.original_file_name = new_name.clone();
        rec.full_file_path = nps.clone();
        rec.extension = string_of(&extension(&name_chars));
        rec.last_changed_unix_ms = ctx.time_ns / 1_000_000;
        let ghost s0 = *self;
        let bound = match self.file_paths.get(&old_path) {
            Some(x) => *x == *file_id,
            None => false,
        };
        if bound {
            self.file_paths.remove(&old_path);
        }
        self.files.insert(file_id.clone(), rec);
        self.file_paths.insert(nps, file_id.clone());
        proof {
            assert(self.files@.dom() =~= s0.files@.dom());
            assert forall|q: Seq<char>| #[trigger] self.file_paths@.contains_key(q) implies self.files@.contains_key(
                self.file_paths@[q]@) && self.files@[self.file_paths@[q]@].full_file_path@ == q by {
                if q != np@ {
                    assert(s0.file_paths@.contains_key(q));
                    if s0.file_paths@[q]@ == file_id@ {
                        assert(s0.files@[file_id@].full_file_path@ == q);
                    }
                }
            }
        }
        Ok(())
    }

    /// Moves every path under `o`, in both indices and in all records, to the same
    /// place under `n`.
    fn move_subtree(&mut self, pc: &Vec<char>, np: &Vec<char>)
        requires
            old(self).wf(),
            apart(pc@, np@),
            forall|k: Seq<char>| #[trigger] old(self).folder_paths@.contains_key(k) ==> !has_prefix(k, np@),
            forall|k: Seq<char>| #[trigger] old(self).file_paths@.contains_key(k) ==> !has_prefix(k, np@),
        ensures
            final(self).wf(),
            final(self).folder_paths@ == rekeyed(old(self).folder_paths@, pc@, np@),
            final(self).file_paths@ == rekeyed(old(self).file_paths@, pc@, np@),
            final(self).folders@.dom() == old(self).folders@.dom(),
            final(self).files@.dom() == old(self).files@.dom(),
            forall|x: Seq<char>| #[trigger] final(self).files@.contains_key(x)
                ==> file_same_but_path(old(self).files@[x], final(self).files@[x])
                && final(self).files@[x].full_file_path@ == moved(old(self).files@[x].full_file_path@, pc@, np@),
            forall|x: Seq<char>| #[trigger] final(self).folders@.contains_key(x)
                ==> folder_same_but_path(old(self).folders@[x], final(self).folders@[x])
                && final(self).folders@[x].full_folder_path@ == moved(old(self).folders@[x].full_folder_path@, pc@, np@),
            final(self).owner == old(self).owner,
            final(self).username == old(self).username,
            final(self).id_counter == old(self).id_counter,
    {
        let ghost p = pc@;
        let ghost s0 = *self;
        move_folder_records(&mut self.folders, pc, np);
        move_file_records(&mut self.files, pc, np);
        self.folder_paths = rekey(&self.folder_paths, pc, np);
        self.file_paths = rekey(&self.file_paths, pc, np);
        proof {
            assert forall|q: Seq<char>| #[trigger] self.folder_paths@.contains_key(q) implies self.folders@.contains_key(
                self.folder_paths@[q]@) by {
                if has_prefix(q, np@) {
                    assert(s0.folder_paths@.contains_key(p + q.subrange(np@.len() as int, q.len() as int)));
                } else {
                    assert(s0.folder_paths@.contains_key(q));
                }
            }
            assert forall|q: Seq<char>| #[trigger] self.file_paths@.contains_key(q) implies self.files@.contains_key(
                self.file_paths@[q]@) && self.files@[self.file_paths@[q]@].full_file_path@ == q by {
                if has_prefix(q, np@) {
                    let src = p + q.subrange(np@.len() as int, q.len() as int);
                    assert(s0.file_paths@.contains_key(src));
                    lemma_concat_prefix(p, q.subrange(np@.len() as int, q.len() as int));
                    lemma_split_prefix(q, np@);
                } else {
                    assert(s0.file_paths@.contains_key(q));
                }
            }
            assert forall|x: Seq<char>| #[trigger] self.folders@.contains_key(x) implies self.folders@[x].id@ == x by {
                assert(s0.folders@.contains_key(x));
            }
            assert forall|x: Seq<char>| #[trigger] self.files@.contains_key(x) implies self.files@[x].id@ == x by {
                assert(s0.files@.contains_key(x));
            }
        }
    }

    /// Gives folder `folder_id` the name `new_name` under the same parent, moves every
    /// path under its old path (folders and files, records and both indices) to the
    /// same place under the new one, and relinks it into its parent's subfolders.
    #[verifier::rlimit(40)]
    pub fn rename_folder(&mut self, ctx: &CallContext, folder_id: &String, new_name: &String) -> (r: Result<(), FsError>)
        requires
            old(self).wf(),
        ensures
            final(self).wf(),
            final(self).owner_id() == old(self).owner_id(),
            final(self).user_name() == old(self).user_name(),
            r is Err ==> *final(self) == *old(self),
            ctx.caller@ != old(self).owner_id() ==> r == Err::<(), FsError>(FsError::Unauthorized),
            ctx.caller@ == old(self).owner_id() && !old(self).folder_map().contains_key(folder_id@)
                ==> r == Err::<(), FsError>(FsError::NotFound),
            ctx.caller@ == old(self).owner_id() && old(self).folder_map().contains_key(folder_id@) && !valid_name(new_name@)
                ==> r == Err::<(), FsError>(FsError::InvalidPath),
            ({
                let p = old(self).folder_map()[folder_id@].full_folder_path@;
                let np = renamed_folder_path(p, new_name@);
                ctx.caller@ == old(self).owner_id() && old(self).folder_map().contains_key(folder_id@) && valid_name(new_name@)
                    ==> if !folder_shape_ok(p) {
                        r == Err::<(), FsError>(FsError::StructureError)
                    } else if np == p {
                        if old(self).folder_index().contains_key(p) && old(self).folder_index()[p]@ != folder_id@ {
                            r == Err::<(), FsError>(FsError::PathCollision)
                        } else {
                            &&& r is Ok
                            &&& final(self).folder_map() == old(self).folder_map().insert(folder_id@, final(self).folder_map()[folder_id@])
                            &&& final(self).folder_map()[folder_id@].original_folder_name@ == new_name@
                            &&& final(self).folder_map()[folder_id@].full_folder_path == old(self).folder_map()[folder_id@].full_folder_path
                            &&& final(self).folder_map()[folder_id@].subfolder_uuids@ == old(self).folder_map()[folder_id@].subfolder_uuids@
                            &&& final(self).folder_map()[folder_id@].file_uuids@ == old(self).folder_map()[folder_id@].file_uuids@
                            &&& final(self).folder_map()[folder_id@].parent_folder_uuid == old(self).folder_map()[folder_id@].parent_folder_uuid
                            &&& final(self).folder_map()[folder_id@].deleted == old(self).folder_map()[folder_id@].deleted
                            &&& final(self).folder_index() == old(self).folder_index()
                            &&& final(self).file_map() == old(self).file_map()
                            &&& final(self).file_index() == old(self).file_index()
                        }
                    } else if (exists|k: Seq<char>| #[trigger] old(self).folder_index().contains_key(k) && has_prefix(k, np))
                        || (exists|k: Seq<char>| #[trigger] old(self).file_index().contains_key(k) && has_prefix(k, np)) {
                        r == Err::<(), FsError>(FsError::PathCollision)
                    } else {
                        r is Ok
                    }
            }),
            r is Ok ==> {
                let f = old(self).folder_map()[folder_id@];
                let p = f.full_folder_path@;
                let np = renamed_folder_path(p, new_name@);
                np != p ==> {
                    &&& apart(p, np)
                    &&& forall|k: Seq<char>| #[trigger] old(self).folder_index().contains_key(k) ==> !has_prefix(k, np)
                    &&& forall|k: Seq<char>| #[trigger] old(self).file_index().contains_key(k) ==> !has_prefix(k, np)
                    &&& final(self).folder_index() == rekeyed(old(self).folder_index(), p, np)
                    &&& final(self).file_index() == rekeyed(old(self).file_index(), p, np)
                    &&& final(self).folder_map().dom() == old(self).folder_map().dom()
                    &&& final(self).file_map().dom() == old(self).file_map().dom()
                    &&& forall|x: Seq<char>| #[trigger] final(self).file_map().contains_key(x)
                        ==> file_same_but_path(old(self).file_map()[x], final(self).file_map()[x])
                        && final(self).file_map()[x].full_file_path@ == moved(old(self).file_map()[x].full_file_path@, p, np)
                    &&& forall|x: Seq<char>| #[trigger] final(self).folder_map().contains_key(x)
                        ==> final(self).folder_map()[x].full_folder_path@ == moved(old(self).folder_map()[x].full_folder_path@, p, np)
                        && final(self).folder_map()[x].deleted == old(self).folder_map()[x].deleted
                        && final(self).folder_map()[x].file_uuids@ == old(self).folder_map()[x].file_uuids@
                        && final(self).folder_map()[x].parent_folder_uuid == old(self).folder_map()[x].parent_folder_uuid
                    &&& final(self).folder_map()[folder_id@].original_folder_name@ == new_name@
                    &&& final(self).folder_map()[folder_id@].full_folder_path@ == np
                    &&& (links_to(f.parent_folder_uuid, old(self).folder_map().dom()) ==> lists(
                        final(self).folder_map()[f.parent_folder_uuid->0@].subfolder_uuids@, folder_id@))
                    &&& (links_to(f.parent_folder_uuid, old(self).folder_map().dom()) && !opt_is(f.parent_folder_uuid, folder_id@)
                        ==> final(self).folder_map()[f.parent_folder_uuid->0@].subfolder_uuids@ == if lists(
                        old(self).folder_map()[f.parent_folder_uuid->0@].subfolder_uuids@, folder_id@) {
                        old(self).folder_map()[f.parent_folder_uuid->0@].subfolder_uuids@
                    } else {
                        old(self).folder_map()[f.parent_folder_uuid->0@].subfolder_uuids@.push(*folder_id)
                    })
                    &&& !opt_is(f.parent_folder_uuid, folder_id@) ==> final(self).folder_map()[folder_id@].subfolder_uuids@
                        == f.subfolder_uuids@
                }
            },
    {
        if ctx.caller != self.owner {
            return Err(FsError::Unauthorized);
        }
        let (pc, parent) = match self.folders.get(folder_id) {
            None => {
                return Err(FsError::NotFound);
            },
            Some(f) => (chars_of(f.full_folder_path.as_str()), copy_opt(&f.parent_folder_uuid)),
        };
        if !is_valid_name(new_name.as_str()) {
            return Err(FsError::InvalidPath);
        }
        let i = match crate::path::find_sep(&pc) {
            None => {
                return Err(FsError::StructureError);
            },
            Some(i) => i,
        };
        if !(pc.len() - i > 3 && pc[pc.len() - 1] == '/') {
            return Err(FsError::StructureError);
        }
        let t = copy_range(&pc, i + 2, pc.len() - 1);
        let (dir, old_name) = split_dir_name(&t);
        let mut np = copy_range(&pc, 0, i + 2);
        append_chars(&mut np, &dir);
        let name_chars = chars_of(new_name.as_str());
        append_chars(&mut np, &name_chars);
        np.push('/');
        let ghost p = pc@;
        let ghost base = pc@.subrange(0, i + 2) + dir@;
        proof {
            assert(np@ =~= renamed_folder_path(p, new_name@));
            assert(t@ == inner_tail(p));
            lemma_last_index_of_range(t@, '/');
            assert(t@ =~= dir@ + old_name@);
            assert(p =~= base + old_name@ + seq!['/']);
            assert(np@ =~= base + new_name@ + seq!['/']);
        }
        if same_chars(&np, &pc) {
            let taken = match self.folder_paths.get(&string_of(&pc)) {
                Some(other) => *other != *folder_id,
                None => false,
            };
            if taken {
                return Err(FsError::PathCollision);
            }
            let mut rec = match self.folders.get(folder_id) {
                Some(f) => f.duplicate(),
                None => {
                    return Err(FsError::NotFound);
                },
            };
            rec.original_folder_name = new_name.clone();
            self.folders.insert(folder_id.clone(), rec);
            proof {
                assert(self.folders@.dom() =~= old(self).folders@.dom());
            }
            return Ok(());
        }
        proof {
            assert forall|j: int| 0 <= j < old_name@.len() implies old_name@[j] != '/' by {
                assert(old_name@[j] == t@[last_index_of(t@, '/') + 1 + j]);
            }
            if old_name@ == new_name@ {
                assert(np@ =~= p);
            }
            lemma_sibling_paths_apart(base, old_name@, new_name@);
        }
        let c1 = any_key_under(&self.folder_paths, &np);
        let c2 = any_key_under(&self.file_paths, &np);
        if c1 || c2 {
            proof {
                if c1 {
                    let k = choose|k: Seq<char>| #[trigger] self.folder_paths@.contains_key(k) && has_prefix(k, np@);
                    assert(old(self).folder_index().contains_key(k) && has_prefix(k, np@));
                } else {
                    let k = choose|k: Seq<char>| #[trigger] self.file_paths@.contains_key(k) && has_prefix(k, np@);
                    assert(old(self).file_index().contains_key(k) && has_prefix(k, np@));
                }
            }
            return Err(FsError::PathCollision);
        }
        self.move_subtree(&pc, &np);
        let ghost s1 = *self;
        let mut rec = match self.folders.get(folder_id) {
            Some(f) => f.duplicate(),
            None => {
                return Err(FsError::NotFound);
            },
        };
        rec.original_folder_name = new_name.clone();
        rec.last_changed_unix_ms = ctx.time_ns / 1_000_000;
        self.folders.insert(folder_id.clone(), rec);
        proof {
            assert(self.folders@.dom() =~= s1.folders@.dom());
            assert(has_prefix(p, p)) by {
                assert(p.subrange(0, p.len() as int) =~= p);
            }
            assert(p.subrange(p.len() as int, p.len() as int) =~= Seq::<char>::empty());
            assert(np@ + Seq::<char>::empty() =~= np@);
        }
        match parent {
            Some(pid) => {
                let listed = match self.folders.get(&pid) {
                    Some(pf) => Some(lists_id(&pf.subfolder_uuids, folder_id)),
                    None => None,
                };
                match listed {
                    Some(false) => {
                        let ghost before = self.folders@;
                        self.add_subfolder(&pid, folder_id);
                        proof {
                            let v = self.folders@[pid@].subfolder_uuids@;
                            assert(v[v.len() - 1]@ == folder_id@);
                            if pid@ != folder_id@ {
                                assert(self.folders@[folder_id@] == before[folder_id@]);
                            }
                        }
                    },
                    _ => {},
                }
            },
            None => {},
        }
        Ok(())
    }
}

impl State {
    /// Takes out of the file list of `folder` every member of the version chain that
    /// starts at `start`, following `prior_version` at most once per stored file.
    fn unlist_chain(&mut self, folder: &String, start: &String)
        requires
            old(self).wf(),
            old(self).folders@.contains_key(folder@),
        ensures
            final(self).wf(),
            final(self).folders@.dom() == old(self).folders@.dom(),
            forall|k: int, m: int| 0 <= k < final(self).folders@[folder@].file_uuids@.len()
                && 0 <= m < prior_walk(old(self).files@, start@, old(self).files.key_seq().len() as nat).len()
                ==> #[trigger] final(self).folders@[folder@].file_uuids@[k]@
                != #[trigger] prior_walk(old(self).files@, start@, old(self).files.key_seq().len() as nat)[m],
            forall|k: int| 0 <= k < final(self).folders@[folder@].file_uuids@.len()
                ==> lists(old(self).folders@[folder@].file_uuids@, #[trigger] final(self).folders@[folder@].file_uuids@[k]@),
            final(self).folders@[folder@].file_uuids@ == without_all(old(self).folders@[folder@].file_uuids@,
                prior_walk(old(self).files@, start@, old(self).files.key_seq().len() as nat)),
            folder_kept_but_files(old(self).folders@[folder@], final(self).folders@[folder@]),
            forall|id: Seq<char>| id != folder@ ==> #[trigger] final(self).folders@[id] == old(self).folders@[id],
            final(self).files == old(self).files,
            final(self).file_paths == old(self).file_paths,
            final(self).folder_paths == old(self).folder_paths,
            final(self).owner == old(self).owner,
            final(self).username == old(self).username,
            final(self).id_counter == old(self).id_counter,
    {
        let mut rec = match self.folders.get(folder) {
            Some(f) => f.duplicate(),
            None => {
                return;
            },
        };
        proof {
            assert(rec.subfolder_uuids@.subrange(0, rec.subfolder_uuids@.len() as int) =~= rec.subfolder_uuids@);
        }
        let ghost orig = rec.file_uuids@;
        let ghost chain = prior_walk(self.files@, start@, self.files.key_seq().len() as nat);
        proof {
            assert(without_all(orig, Seq::<Seq<char>>::empty()) == orig);
        }
        let ghost mut visited: Seq<Seq<char>> = Seq::empty();
        let mut cur: Option<String> = Some(start.clone());
        let mut fuel: usize = self.files.len();
        proof {
            assert(chain =~= visited + prior_walk(self.files@, start@, fuel as nat));
        }
        while fuel > 0
            invariant
                self.wf(),
                *self == *old(self),
                chain == visited + match cur {
                    Some(c) => prior_walk(self.files@, c@, fuel as nat),
                    None => Seq::<Seq<char>>::empty(),
                },
                forall|k: int, m: int| 0 <= k < rec.file_uuids@.len() && 0 <= m < visited.len()
                    ==> #[trigger] rec.file_uuids@[k]@ != #[trigger] visited[m],
                forall|k: int| 0 <= k < rec.file_uuids@.len() ==> lists(orig, #[trigger] rec.file_uuids@[k]@),
                folder_kept_but_files(old(self).folders@[folder@], rec),
                rec.file_uuids@ == without_all(orig, visited),
            ensures
                chain == visited,
                rec.file_uuids@ == without_all(orig, visited),
                forall|k: int, m: int| 0 <= k < rec.file_uuids@.len() && 0 <= m < visited.len()
                    ==> #[trigger] rec.file_uuids@[k]@ != #[trigger] visited[m],
                forall|k: int| 0 <= k < rec.file_uuids@.len() ==> lists(orig, #[trigger] rec.file_uuids@[k]@),
                folder_kept_but_files(old(self).folders@[folder@], rec),
            decreases fuel,
        {
            let id = match &cur {
                Some(id) => id.clone(),
                None => {
                    proof {
                        assert(chain =~= visited);
                    }
                    break;
                },
            };
            let prior = match self.files.get(&id) {
                Some(f) => copy_opt(&f.prior_version),
                None => {
                    proof {
                        assert(chain =~= visited);
                    }
                    break;
                },
            };
            let ghost before = rec.file_uuids@;
            rec.file_uuids = remove_id(&rec.file_uuids, &id);
            proof {
                lemma_without_excludes(before, id@);
                lemma_without_subset(before, id@);
                let rest = match &prior {
                    Some(p) => prior_walk(self.files@, p@, (fuel - 1) as nat),
                    None => Seq::<Seq<char>>::empty(),
                };
                assert(prior_walk(self.files@, id@, fuel as nat) == seq![id@] + rest);
                assert(chain =~= visited.push(id@) + rest);
                assert forall|k: int| 0 <= k < rec.file_uuids@.len() implies lists(orig, #[trigger] rec.file_uuids@[k]@) by {
                    let w = choose|j: int| 0 <= j < before.len() && #[trigger] before[j]@ == rec.file_uuids@[k]@;
                }
                assert forall|k: int, m: int| 0 <= k < rec.file_uuids@.len() && 0 <= m < visited.push(id@).len()
                    implies #[trigger] rec.file_uuids@[k]@ != #[trigger] visited.push(id@)[m] by {
                    if m < visited.len() {
                        let w = choose|j: int| 0 <= j < before.len() && #[trigger] before[j]@ == rec.file_uuids@[k]@;
                        assert(visited.push(id@)[m] == visited[m]);
                    }
                }
                assert(visited.push(id@).drop_last() =~= visited);
                visited = visited.push(id@);
            }
            cur = prior;
            fuel = fuel - 1;
        }
        self.folders.insert(folder.clone(), rec);
        proof {
            assert(self.folders@.dom() =~= old(self).folders@.dom());
        }
    }

    /// Appends a revision authored by an offline client to the chain of file
    /// `file_id`: the new record takes its path, creation date, backend, size,
    /// location and deletion flag from `file_metadata`, its modification time is the
    /// bitwise or of the client's and the current one, and it replaces every member
    /// of the chain in its folder's file list.
    pub fn upsert_cloud_file_with_local_sync(
        &mut self,
        ctx: &CallContext,
        file_id: &String,
        file_metadata: &FileMetadata,
    ) -> (r: Result<String, FsError>)
        requires
            old(self).wf(),
        ensures
            final(self).wf(),
            final(self).owner_id() == old(self).owner_id(),
            final(self).user_name() == old(self).user_name(),
            r is Err ==> *final(self) == *old(self),
            ctx.caller@ != old(self).owner_id() ==> r == Err::<String, FsError>(FsError::Unauthorized),
            ctx.caller@ == old(self).owner_id() && !old(self).file_map().contains_key(file_id@)
                ==> r == Err::<String, FsError>(FsError::NotFound),
            ({
                let path = file_metadata.full_file_path@;
                ctx.caller@ == old(self).owner_id() && old(self).file_map().contains_key(file_id@) ==> if !path_in(
                    path,
                    file_metadata.storage_location,
                ) || tail_of(path).len() == 0 {
                    r == Err::<String, FsError>(FsError::InvalidPath)
                } else if old(self).file_map()[file_id@].file_version == u32::MAX {
                    r == Err::<String, FsError>(FsError::VersionLimit)
                } else {
                    &&& (r is Ok <==> old(self).ids_available(*ctx, slash_count(dir_of(tail_of(path))) + 2))
                    &&& (r is Err ==> r == Err::<String, FsError>(FsError::IdUnavailable))
                }
            }),
            r matches Ok(id) ==> {
                let path = file_metadata.full_file_path@;
                let p = canonical_file_path(path);
                let t = tail_of(path);
                let e = old(self).file_map()[file_id@];
                let f = final(self).file_map()[id@];
                &&& !old(self).file_map().contains_key(id@)
                &&& final(self).file_map().dom() == old(self).file_map().dom().insert(id@)
                &&& final(self).file_index().contains_key(p)
                &&& final(self).file_index()[p]@ == id@
                &&& f.full_file_path@ == p
                &&& f.original_file_name@ == name_of(t)
                &&& f.extension@ == extension_of(name_of(t))
                &&& f.file_version == e.file_version + 1
                &&& f.prior_version == Some(*file_id)
                &&& f.next_version is None
                &&& f.created_date == file_metadata.created_date
                &&& f.storage_location == file_metadata.storage_location
                &&& f.file_size == file_metadata.file_size
                &&& f.raw_url == file_metadata.raw_url
                &&& f.deleted == file_metadata.deleted
                &&& f.last_changed_unix_ms == file_metadata.last_changed_unix_ms | ctx.millis()
                &&& final(self).file_map()[file_id@].next_version == Some(id)
                &&& same_file_but_links(e, final(self).file_map()[file_id@])
                &&& final(self).folder_map().contains_key(f.folder_uuid@)
                &&& final(self).folder_map()[f.folder_uuid@].file_uuids@.last() == id
                &&& forall|k: int| 0 <= k < final(self).folder_map()[f.folder_uuid@].file_uuids@.len()
                    ==> #[trigger] final(self).folder_map()[f.folder_uuid@].file_uuids@[k]@ != file_id@
                &&& forall|k: int, m: int| 0 <= k < final(self).folder_map()[f.folder_uuid@].file_uuids@.len()
                    && 0 <= m < prior_walk(old(self).file_map(), file_id@, old(self).file_count()).len()
                    ==> #[trigger] final(self).folder_map()[f.folder_uuid@].file_uuids@[k]@
                    != #[trigger] prior_walk(old(self).file_map(), file_id@, old(self).file_count())[m]
                &&& final(self).folder_map()[f.folder_uuid@].file_uuids@ == without(without_all(
                    if old(self).folder_map().contains_key(f.folder_uuid@) {
                        old(self).folder_map()[f.folder_uuid@].file_uuids@
                    } else {
                        Seq::<String>::empty()
                    },
                    prior_walk(old(self).file_map(), file_id@, old(self).file_count()),
                ), id@).push(id)
                &&& final(self).folder_index().contains_key(root_path(file_metadata.storage_location) + dir_of(t))
                &&& final(self).folder_index()[root_path(file_metadata.storage_location) + dir_of(t)]@ == f.folder_uuid@
                &&& !(final(self).file_index().contains_key(e.full_file_path@)
                    && final(self).file_index()[e.full_file_path@]@ == file_id@)
                &&& final(self).counter() == old(self).counter() + slash_count(dir_of(t)) + 2
            },
    {
        if ctx.caller != self.owner {
            return Err(FsError::Unauthorized);
        }
        let old_version = match self.files.get(file_id) {
            None => {
                return Err(FsError::NotFound);
            },
            Some(e) => e.file_version,
        };
        let storage_location = file_metadata.storage_location;
        let (ns, t) = match parse_path(file_metadata.full_file_path.as_str()) {
            None => {
                return Err(FsError::InvalidPath);
            },
            Some(x) => x,
        };
        let name = chars_of(storage_location.name().as_str());
        if !same_chars(&ns, &name) || t.len() == 0 {
            return Err(FsError::InvalidPath);
        }
        if old_version == u32::MAX {
            return Err(FsError::VersionLimit);
        }
        let (dir, file_name) = split_dir_name(&t);
        let full = string_of(&join_path(&name, &t));
        proof {
            lemma_last_index_of_range(t@, '/');
            let k = last_index_of(t@, '/');
            if t@.len() > 0 && k >= 0 {
                assert(dir@.last() == '/');
            }
        }
        let cnt = count_slashes(&dir) as u64;
        if cnt >= u64::MAX - 1 {
            return Err(FsError::IdUnavailable);
        }
        let n = cnt + 2;
        let ids = match self.alloc_ids(ctx, n) {
            None => {
                return Err(FsError::IdUnavailable);
            },
            Some(v) => v,
        };
        proof {
            assert forall|i: int| 0 <= i < ids@.len() implies !self.folders@.contains_key(#[trigger] ids@[i]@) by {
                assert(ids@[i]@ == candidate_id(*ctx, self.id_counter, i));
            }
            assert forall|i: int, j: int| 0 <= i < j < ids@.len() implies ids@[i]@ != ids@[j]@ by {
                assert(ids@[i]@ == candidate_id(*ctx, self.id_counter, i));
                assert(ids@[j]@ == candidate_id(*ctx, self.id_counter, j));
            }
            assert(ids@[n - 1]@ == candidate_id(*ctx, self.id_counter, n - 1));
        }
        let ghost old_files = self.files@;
        let folder_id = self.ensure_folders(storage_location, &dir, &ids, ctx);
        let new_id = ids[(n - 1) as usize].clone();
        let ghost chain = prior_walk(self.files@, file_id@, self.files.key_seq().len() as nat);
        proof {
            self.files.lemma_key_seq();
            lemma_prior_walk_stored(self.files@, file_id@, self.files.key_seq().len() as nat);
            if self.files.key_seq().len() == 0 {
                assert(self.files@.contains_key(file_id@));
            }
            assert(chain[0] == file_id@);
        }
        proof {
            if !old(self).folders@.contains_key(folder_id@) {
                let rd = root_path(storage_location) + dir@;
                assert(!old(self).folder_paths@.contains_key(rd));
                if dir@.len() > 0 {
                    assert(dir@.subrange(0, dir@.len() as int) =~= dir@);
                    assert(prefix_at(storage_location, dir@, dir@.len() - 1) == rd);
                    assert(made_folder(self.folders@, self.folder_paths@, storage_location, dir@, dir@.len() - 1, ctx.caller@));
                } else {
                    assert(rd =~= root_path(storage_location));
                }
                assert(self.folders@[folder_id@].file_uuids@ =~= Seq::<String>::empty());
            }
        }
        self.unlist_chain(&folder_id, file_id);
        let ghost list0 = self.folders@[folder_id@].file_uuids@;
        self.relink_file(&folder_id, &new_id, &new_id);
        proof {
            lemma_without_keeps(list0, new_id@);
            assert forall|k: int, m: int| 0 <= k < self.folders@[folder_id@].file_uuids@.len() && 0 <= m < chain.len()
                implies #[trigger] self.folders@[folder_id@].file_uuids@[k]@ != #[trigger] chain[m] by {
                let w = without(list0, new_id@);
                if k < w.len() {
                    let j = choose|j: int| 0 <= j < list0.len() && list0[j] == w[k];
                    assert(list0[j]@ != chain[m]);
                } else {
                    assert(old_files.contains_key(chain[m]));
                }
            }
            assert forall|k: int| 0 <= k < self.folders@[folder_id@].file_uuids@.len()
                implies #[trigger] self.folders@[folder_id@].file_uuids@[k]@ != file_id@ by {
                assert(self.folders@[folder_id@].file_uuids@[k]@ != chain[0]);
            }
        }
        let rec = FileMetadata {
            id: new_id.clone(),
            original_file_name: string_of(&file_name),
            folder_uuid: folder_id.clone(),
            file_version: old_version + 1,
            prior_version: Some(file_id.clone()),
            next_version: None,
            extension: string_of(&extension(&file_name)),
            full_file_path: full.clone(),
            tags: Vec::new(),
            owner: ctx.caller.clone(),
            created_date: file_metadata.created_date,
            storage_location: storage_location,
            file_size: file_metadata.file_size,
            raw_url: file_metadata.raw_url.clone(),
            last_changed_unix_ms: file_metadata.last_changed_unix_ms | ctx.time_ns / 1_000_000,
            deleted: file_metadata.deleted,
        };
        let ghost s0 = *self;
        let old_path = match self.files.get(file_id) {
            Some(e) => e.full_file_path.clone(),
            None => {
                return Err(FsError::NotFound);
            },
        };
        let bound = match self.file_paths.get(&old_path) {
            Some(x) => *x == *file_id,
            None => false,
        };
        if bound {
            self.file_paths.remove(&old_path);
        }
        self.files.insert(new_id.clone(), rec);
        self.file_paths.insert(full, new_id.clone());
        proof {
            assert forall|q: Seq<char>| #[trigger] self.file_paths@.contains_key(q) implies self.files@.contains_key(
                self.file_paths@[q]@) && self.files@[self.file_paths@[q]@].full_file_path@ == q by {
                if q != full@ {
                    assert(s0.file_paths@.contains_key(q));
                }
            }
        }
        self.set_next_version(file_id, Some(new_id.clone()));
        self.id_counter = self.id_counter + n;
        proof {
            assert(self.files@.dom() =~= old_files.dom().insert(new_id@));
        }
        Ok(new_id)
    }

    /// Overwrites, in place, the name, tags, backend, path, parent and deletion flag
    /// of folder `folder_id` with those of `folder_metadata`; its modification time
    /// becomes the bitwise or of the client's and the current one. Nothing is rebound.
    pub fn upsert_cloud_folder_with_local_sync(
        &mut self,
        ctx: &CallContext,
        folder_id: &String,
        folder_metadata: &FolderMetadata,
    ) -> (r: Result<String, FsError>)
        requires
            old(self).wf(),
        ensures
            final(self).wf(),
            final(self).owner_id() == old(self).owner_id(),
            final(self).user_name() == old(self).user_name(),
            r is Err ==> *final(self) == *old(self),
            ctx.caller@ != old(self).owner_id() ==> r == Err::<String, FsError>(FsError::Unauthorized),
            ctx.caller@ == old(self).owner_id() ==> (r is Ok <==> old(self).folder_map().contains_key(folder_id@))
                && (r is Err ==> r == Err::<String, FsError>(FsError::NotFound)),
            r matches Ok(id) ==> {
                let e = old(self).folder_map()[folder_id@];
                let f = final(self).folder_map()[folder_id@];
                &&& id == *folder_id
                &&& final(self).folder_map().dom() == old(self).folder_map().dom()
                &&& forall|x: Seq<char>| x != folder_id@ ==> #[trigger] final(self).folder_map()[x] == old(self).folder_map()[x]
                &&& f.id == e.id
                &&& f.subfolder_uuids@ == e.subfolder_uuids@
                &&& f.file_uuids@ == e.file_uuids@
                &&& f.owner == e.owner
                &&& f.created_date == e.created_date
                &&& f.original_folder_name == folder_metadata.original_folder_name
                &&& f.tags@ == folder_metadata.tags@
                &&& f.storage_location == folder_metadata.storage_location
                &&& f.full_folder_path == folder_metadata.full_folder_path
                &&& f.parent_folder_uuid == folder_metadata.parent_folder_uuid
                &&& f.deleted == folder_metadata.deleted
                &&& f.last_changed_unix_ms == folder_metadata.last_changed_unix_ms | ctx.millis()
                &&& final(self).folder_index() == old(self).folder_index()
                &&& final(self).file_index() == old(self).file_index()
                &&& final(self).file_map() == old(self).file_map()
            },
    {
        if ctx.caller != self.owner {
            return Err(FsError::Unauthorized);
        }
        let mut rec = match self.folders.get(folder_id) {
            None => {
                return Err(FsError::NotFound);
            },
            Some(f) => f.duplicate(),
        };
        rec.original_folder_name = folder_metadata.original_folder_name.clone();
        rec.tags = copy_strings(&folder_metadata.tags);
        rec.storage_location = folder_metadata.storage_location;
        rec.full_folder_path = folder_metadata.full_folder_path.clone();
        rec.parent_folder_uuid = copy_opt(&folder_metadata.parent_folder_uuid);
        rec.deleted = folder_metadata.deleted;
        rec.last_changed_unix_ms = folder_metadata.last_changed_unix_ms | ctx.time_ns / 1_000_000;
        self.folders.insert(folder_id.clone(), rec);
        proof {
            assert(self.folders@.dom() =~= old(self).folders@.dom());
        }
        Ok(folder_id.clone())
    }
}

pub proof fn lemma_without_subset(s: Seq<String>, x: Seq<char>)
    ensures
        forall|k: int| 0 <= k < without(s, x).len() ==> lists(s, #[trigger] without(s, x)[k]@),
    decreases s.len(),
{
    if s.len() > 0 {
        lemma_without_subset(s.drop_last(), x);
        let w = without(s.drop_last(), x);
        assert forall|k: int| 0 <= k < without(s, x).len() implies lists(s, #[trigger] without(s, x)[k]@) by {
            if s.last()@ != x && k == w.len() {
                assert(s[s.len() - 1]@ == without(s, x)[k]@);
            } else {
                assert(without(s, x)[k] == w[k]);
                let j = choose|j: int| 0 <= j < s.drop_last().len() && #[trigger] s.drop_last()[j]@ == w[k]@;
                assert(s[j]@ == w[k]@);
            }
        }
    }
}

pub proof fn lemma_without_keeps(s: Seq<String>, x: Seq<char>)
    ensures
        forall|k: int| 0 <= k < without(s, x).len() ==> exists|j: int| 0 <= j < s.len() && s[j] == #[trigger] without(s, x)[k],
    decreases s.len(),
{
    if s.len() > 0 {
        lemma_without_keeps(s.drop_last(), x);
        let w = without(s.drop_last(), x);
        assert forall|k: int| 0 <= k < without(s, x).len() implies exists|j: int| 0 <= j < s.len() && s[j] == #[trigger] without(s, x)[k] by {
            if s.last()@ != x && k == w.len() {
                assert(s[s.len() - 1] == without(s, x)[k]);
            } else {
                assert(without(s, x)[k] == w[k]);
                let j = choose|j: int| 0 <= j < s.drop_last().len() && s.drop_last()[j] == #[trigger] w[k];
                assert(s[j] == w[k]);
            }
        }
    }
}

/// The stored folders among `ids`, in list order.
pub open spec fn present_folders(m: Map<Seq<char>, FolderMetadata>, ids: Seq<String>) -> Seq<FolderMetadata>
    decreases ids.len(),
{
    if ids.len() == 0 {
        Seq::empty()
    } else if m.contains_key(ids.last()@) {
        present_folders(m, ids.drop_last()).push(m[ids.last()@])
    } else {
        present_folders(m, ids.drop_last())
    }
}

/// The stored files among `ids`, in list order.
pub open spec fn present_files(m: Map<Seq<char>, FileMetadata>, ids: Seq<String>) -> Seq<FileMetadata>
    decreases ids.len(),
{
    if ids.len() == 0 {
        Seq::empty()
    } else if m.contains_key(ids.last()@) {
        present_files(m, ids.drop_last()).push(m[ids.last()@])
    } else {
        present_files(m, ids.drop_last())
    }
}

pub open spec fn min_int(a: int, b: int) -> int {
    if a < b {
        a
    } else {
        b
    }
}

pub open spec fn max_int(a: int, b: int) -> int {
    if a < b {
        b
    } else {
        a
    }
}

/// `r` is the page `[after, after + limit)`, clamped, of the sequence of the
/// folders `fs` followed by the files `gs`.
pub open spec fn is_page(r: FetchFilesResult, fs: Seq<FolderMetadata>, gs: Seq<FileMetadata>, after: int, limit: int) -> bool {
    let n = (fs.len() + gs.len()) as int;
    let s = min_int(after, n);
    let e = min_int(after + limit, n);
    let nf = fs.len() as int;
    &&& r.folders@.len() == if s < nf { min_int(e, nf) - s } else { 0 }
    &&& forall|i: int| 0 <= i < r.folders@.len() ==> same_folder(#[trigger] r.folders@[i], fs[s + i])
    &&& r.files@.len() == max_int(e, nf) - max_int(s, nf)
    &&& forall|i: int| 0 <= i < r.files@.len() ==> same_file(#[trigger] r.files@[i], gs[max_int(s, nf) - nf + i])
    &&& r.total == r.folders@.len() + r.files@.len()
    &&& r.has_more == (e < n)
}

impl State {
    fn collect_folders(&self, ids: &Vec<String>) -> (r: Vec<FolderMetadata>)
        requires
            self.wf(),
        ensures
            r@.len() == present_folders(self.folders@, ids@).len(),
            forall|i: int| 0 <= i < r@.len() ==> same_folder(#[trigger] r@[i], present_folders(self.folders@, ids@)[i]),
    {
        let mut r: Vec<FolderMetadata> = Vec::new();
        let mut i: usize = 0;
        while i < ids.len()
            invariant
                self.wf(),
                i <= ids@.len(),
                r@.len() == present_folders(self.folders@, ids@.subrange(0, i as int)).len(),
                forall|k: int| 0 <= k < r@.len() ==> same_folder(#[trigger] r@[k], present_folders(self.folders@, ids@.subrange(0, i as int))[k]),
            decreases ids@.len() - i,
        {
            proof {
                assert(ids@.subrange(0, i + 1).drop_last() =~= ids@.subrange(0, i as int));
            }
            match self.folders.get(&ids[i]) {
                Some(f) => {
                    r.push(f.duplicate());
                },
                None => {},
            }
            i = i + 1;
        }
        proof {
            assert(ids@.subrange(0, ids@.len() as int) =~= ids@);
        }
        r
    }

    fn collect_files(&self, ids: &Vec<String>) -> (r: Vec<FileMetadata>)
        requires
            self.wf(),
        ensures
            r@.len() == present_files(self.files@, ids@).len(),
            forall|i: int| 0 <= i < r@.len() ==> same_file(#[trigger] r@[i], present_files(self.files@, ids@)[i]),
    {
        let mut r: Vec<FileMetadata> = Vec::new();
        let mut i: usize = 0;
        while i < ids.len()
            invariant
                self.wf(),
                i <= ids@.len(),
                r@.len() == present_files(self.files@, ids@.subrange(0, i as int)).len(),
                forall|k: int| 0 <= k < r@.len() ==> same_file(#[trigger] r@[k], present_files(self.files@, ids@.subrange(0, i as int))[k]),
            decreases ids@.len() - i,
        {
            proof {
                assert(ids@.subrange(0, i + 1).drop_last() =~= ids@.subrange(0, i as int));
            }
            match self.files.get(&ids[i]) {
                Some(f) => {
                    r.push(f.duplicate());
                },
                None => {},
            }
            i = i + 1;
        }
        proof {
            assert(ids@.subrange(0, ids@.len() as int) =~= ids@);
        }
        r
    }

    /// One page of the children of the folder at `config.full_folder_path`: the
    /// stored subfolders in list order, then the stored files in list order, from
    /// position `after`, at most `limit` of them. An unknown path gives an empty page.
    pub fn fetch_files_at_folder_path(&self, config: &FetchFilesAtFolderPathConfig) -> (r: FetchFilesResult)
        requires
            self.wf(),
        ensures
            !self.folder_index().contains_key(config.full_folder_path@) ==> r.folders@.len() == 0
                && r.files@.len() == 0 && r.total == 0 && !r.has_more,
            self.folder_index().contains_key(config.full_folder_path@) ==> {
                let f = self.folder_map()[self.folder_index()[config.full_folder_path@]@];
                is_page(
                    r,
                    present_folders(self.folder_map(), f.subfolder_uuids@),
                    present_files(self.file_map(), f.file_uuids@),
                    config.after as int,
                    config.limit as int,
                )
            },
    {
        let folder = match self.get_folder_by_path(&config.full_folder_path) {
            None => {
                return FetchFilesResult::empty();
            },
            Some(f) => f,
        };
        let ghost fs = present_folders(self.folders@, folder.subfolder_uuids@);
        let ghost gs = present_files(self.files@, folder.file_uuids@);
        let all_folders = self.collect_folders(&folder.subfolder_uuids);
        let all_files = self.collect_files(&folder.file_uuids);
        let nf = all_folders.len() as u128;
        let ng = all_files.len() as u128;
        let n = nf + ng;
        let s = if (config.after as u128) < n { config.after as u128 } else { n };
        let e = if (config.after as u128) + (config.limit as u128) < n {
            config.after as u128 + config.limit as u128
        } else {
            n
        };
        let mut folders: Vec<FolderMetadata> = Vec::new();
        let fe = if e < nf { e } else { nf };
        let mut i: u128 = s;
        while i < fe
            invariant
                s <= n,
                fe <= nf,
                nf == all_folders@.len(),
                all_folders@.len() <= usize::MAX,
                s <= i <= fe || (s >= fe && i == s),
                folders@.len() == i - s,
                forall|k: int| 0 <= k < folders@.len() ==> same_folder(#[trigger] folders@[k], fs[s + k]),
                all_folders@.len() == fs.len(),
                forall|k: int| 0 <= k < all_folders@.len() ==> same_folder(#[trigger] all_folders@[k], fs[k]),
            decreases fe - i,
        {
            folders.push(all_folders[i as usize].duplicate());
            proof {
                assert(same_folder(all_folders@[i as int], fs[i as int]));
                assert(same_folder(folders@[(i - s) as int], fs[s + (i - s)]));
            }
            i = i + 1;
        }
        let mut files: Vec<FileMetadata> = Vec::new();
        let gs0 = if s > nf { s - nf } else { 0 };
        let ge = if e > nf { e - nf } else { 0 };
        let mut j: u128 = gs0;
        while j < ge
            invariant
                ge <= ng,
                ng == all_files@.len(),
                all_files@.len() <= usize::MAX,
                gs0 <= j <= ge || (gs0 >= ge && j == gs0),
                files@.len() == j - gs0,
                forall|k: int| 0 <= k < files@.len() ==> same_file(#[trigger] files@[k], gs[gs0 + k]),
                all_files@.len() == gs.len(),
                forall|k: int| 0 <= k < all_files@.len() ==> same_file(#[trigger] all_files@[k], gs[k]),
            decreases ge - j,
        {
            files.push(all_files[j as usize].duplicate());
            proof {
                assert(same_file(all_files@[j as int], gs[j as int]));
                assert(same_file(files@[(j - gs0) as int], gs[gs0 + (j - gs0)]));
            }
            j = j + 1;
        }
        let total = (folders.len() + files.len()) as u32;
        FetchFilesResult { folders, files, total, has_more: e < n }
    }

    /// Every record and every binding of the store, and its owner; `username` is
    /// the part of the stored user name after its last `@`.
    pub fn snapshot_hashtables(&self) -> (r: StateSnapshot)
        requires
            self.wf(),
        ensures
            forall|i: int| 0 <= i < r.folder_uuid_to_metadata@.len() ==> {
                let f = #[trigger] r.folder_uuid_to_metadata@[i];
                self.folder_map().contains_key(f.id@) && same_folder(f, self.folder_map()[f.id@])
            },
            forall|x: Seq<char>| #[trigger] self.folder_map().contains_key(x) ==> exists|i: int|
                0 <= i < r.folder_uuid_to_metadata@.len() && r.folder_uuid_to_metadata@[i].id@ == x,
            forall|i: int| 0 <= i < r.file_uuid_to_metadata@.len() ==> {
                let f = #[trigger] r.file_uuid_to_metadata@[i];
                self.file_map().contains_key(f.id@) && same_file(f, self.file_map()[f.id@])
            },
            forall|x: Seq<char>| #[trigger] self.file_map().contains_key(x) ==> exists|i: int|
                0 <= i < r.file_uuid_to_metadata@.len() && r.file_uuid_to_metadata@[i].id@ == x,
            forall|i: int| 0 <= i < r.full_folder_path_to_uuid@.len() ==> {
                let e = #[trigger] r.full_folder_path_to_uuid@[i];
                self.folder_index().contains_key(e.path@) && self.folder_index()[e.path@] == e.id
            },
            forall|p: Seq<char>| #[trigger] self.folder_index().contains_key(p) ==> exists|i: int|
                0 <= i < r.full_folder_path_to_uuid@.len() && r.full_folder_path_to_uuid@[i].path@ == p,
            forall|i: int| 0 <= i < r.full_file_path_to_uuid@.len() ==> {
                let e = #[trigger] r.full_file_path_to_uuid@[i];
                self.file_index().contains_key(e.path@) && self.file_index()[e.path@] == e.id
            },
            forall|p: Seq<char>| #[trigger] self.file_index().contains_key(p) ==> exists|i: int|
                0 <= i < r.full_file_path_to_uuid@.len() && r.full_file_path_to_uuid@[i].path@ == p,
            r.owner@ == self.owner_id(),
    {
        let folder_entries = dump_index(&self.folder_paths);
        let file_entries = dump_index(&self.file_paths);
        proof {
            assert forall|p: Seq<char>| #[trigger] self.file_index().contains_key(p) implies exists|i: int|
                0 <= i < file_entries@.len() && file_entries@[i].path@ == p by {
                assert(self.file_paths@.contains_key(p));
            }
            assert forall|p: Seq<char>| #[trigger] self.folder_index().contains_key(p) implies exists|i: int|
                0 <= i < folder_entries@.len() && folder_entries@[i].path@ == p by {
                assert(self.folder_paths@.contains_key(p));
            }
        }
        let ghost fe = folder_entries@;
        let ghost ge = file_entries@;
        let r = StateSnapshot {
            folder_uuid_to_metadata: self.dump_folders(),
            file_uuid_to_metadata: self.dump_files(),
            full_folder_path_to_uuid: folder_entries,
            full_file_path_to_uuid: file_entries,
            owner: self.owner.clone(),
            username: crate::path::after_last_at(&self.username),
        };
        proof {
            assert(r.full_folder_path_to_uuid@ == fe);
            assert(r.full_file_path_to_uuid@ == ge);
        }
        r
    }

    fn dump_folders(&self) -> (r: Vec<FolderMetadata>)
        requires
            self.wf(),
        ensures
            forall|i: int| 0 <= i < r@.len() ==> {
                let f = #[trigger] r@[i];
                self.folders@.contains_key(f.id@) && same_folder(f, self.folders@[f.id@])
            },
            forall|x: Seq<char>| #[trigger] self.folders@.contains_key(x) ==> exists|i: int|
                0 <= i < r@.len() && r@[i].id@ == x,
    {
        proof {
            self.folders.lemma_key_seq();
        }
        let ghost ks = self.folders.key_seq();
        let mut r: Vec<FolderMetadata> = Vec::new();
        let mut i: usize = 0;
        while i < self.folders.len()
            invariant
                self.wf(),
                ks == self.folders.key_seq(),
                i <= ks.len(),
                r@.len() == i,
                forall|k: int| 0 <= k < i ==> (#[trigger] r@[k]).id@ == ks[k]@ && self.folders@.contains_key(ks[k]@)
                    && same_folder(r@[k], self.folders@[ks[k]@]),
            decreases ks.len() - i,
        {
            proof {
                self.folders.lemma_key_seq();
                assert(self.folders@.contains_key(ks[i as int]@));
            }
            r.push(self.folders.value_at(i).duplicate());
            i = i + 1;
        }
        proof {
            self.folders.lemma_key_seq();
            assert forall|x: Seq<char>| #[trigger] self.folders@.contains_key(x) implies exists|k: int|
                0 <= k < r@.len() && r@[k].id@ == x by {
                let k = choose|k: int| 0 <= k < ks.len() && ks[k]@ == x;
                assert(r@[k].id@ == x);
            }
        }
        r
    }

    fn dump_files(&self) -> (r: Vec<FileMetadata>)
        requires
            self.wf(),
        ensures
            forall|i: int| 0 <= i < r@.len() ==> {
                let f = #[trigger] r@[i];
                self.files@.contains_key(f.id@) && same_file(f, self.files@[f.id@])
            },
            forall|x: Seq<char>| #[trigger] self.files@.contains_key(x) ==> exists|i: int|
                0 <= i < r@.len() && r@[i].id@ == x,
    {
        proof {
            self.files.lemma_key_seq();
        }
        let ghost ks = self.files.key_seq();
        let mut r: Vec<FileMetadata> = Vec::new();
        let mut i: usize = 0;
        while i < self.files.len()
            invariant
                self.wf(),
                ks == self.files.key_seq(),
                i <= ks.len(),
                r@.len() == i,
                forall|k: int| 0 <= k < i ==> (#[trigger] r@[k]).id@ == ks[k]@ && self.files@.contains_key(ks[k]@)
                    && same_file(r@[k], self.files@[ks[k]@]),
            decreases ks.len() - i,
        {
            proof {
                self.files.lemma_key_seq();
                assert(self.files@.contains_key(ks[i as int]@));
            }
            r.push(self.files.value_at(i).duplicate());
            i = i + 1;
        }
        proof {
            self.files.lemma_key_seq();
            assert forall|x: Seq<char>| #[trigger] self.files@.contains_key(x) implies exists|k: int|
                0 <= k < r@.len() && r@[k].id@ == x by {
                let k = choose|k: int| 0 <= k < ks.len() && ks[k]@ == x;
                assert(r@[k].id@ == x);
            }
        }
        r
    }
}

fn dump_index(t: &Table<String>) -> (r: Vec<PathEntry>)
    requires
        t.wf(),
    ensures
        forall|i: int| 0 <= i < r@.len() ==> {
            let e = #[trigger] r@[i];
            t@.contains_key(e.path@) && t@[e.path@] == e.id
        },
        forall|p: Seq<char>| #[trigger] t@.contains_key(p) ==> exists|i: int| 0 <= i < r@.len() && r@[i].path@ == p,
{
    proof {
        t.lemma_key_seq();
    }
    let ghost ks = t.key_seq();
    let mut r: Vec<PathEntry> = Vec::new();
    let mut i: usize = 0;
    while i < t.len()
        invariant
            t.wf(),
            ks == t.key_seq(),
            i <= ks.len(),
            r@.len() == i,
            forall|k: int| 0 <= k < i ==> (#[trigger] r@[k]).path@ == ks[k]@ && t@.contains_key(ks[k]@) && t@[ks[k]@]
                == r@[k].id,
        decreases ks.len() - i,
    {
        proof {
            t.lemma_key_seq();
            assert(t@.contains_key(ks[i as int]@));
        }
        r.push(PathEntry { path: t.key_at(i).clone(), id: t.value_at(i).clone() });
        i = i + 1;
    }
    proof {
        t.lemma_key_seq();
        assert forall|p: Seq<char>| #[trigger] t@.contains_key(p) implies exists|k: int| 0 <= k < r@.len()
            && r@[k].path@ == p by {
            let k = choose|k: int| 0 <= k < ks.len() && ks[k]@ == p;
            assert(r@[k].path@ == p);
        }
    }
    r
}

/// What one successful upsert to path `p`, giving id `id`, does to the file records
/// and the file index: `id` is new and becomes the head at `p`; it links back to
/// the previous head, if any, with a version one higher; no other record changes
/// except the previous head's forward link.
pub open spec fn upsert_step(s0: State, s1: State, p: Seq<char>, id: Seq<char>) -> bool {
    &&& !s0.file_map().contains_key(id)
    &&& s1.file_map().dom() == s0.file_map().dom().insert(id)
    &&& s1.file_index().contains_key(p)
    &&& s1.file_index()[p]@ == id
    &&& if s0.file_index().contains_key(p) {
        let h = s0.file_index()[p];
        &&& s1.file_map()[id].prior_version == Some(h)
        &&& s1.file_map()[id].file_version == s0.file_map()[h@].file_version + 1
        &&& s1.file_map()[h@].prior_version == s0.file_map()[h@].prior_version
        &&& s1.file_map()[h@].file_version == s0.file_map()[h@].file_version
    } else {
        &&& s1.file_map()[id].prior_version is None
        &&& s1.file_map()[id].file_version == 1
    }
    &&& forall|x: Seq<char>| #[trigger] s0.file_map().contains_key(x)
        && (!s0.file_index().contains_key(p) || x != s0.file_index()[p]@)
        ==> s1.file_map()[x] == s0.file_map()[x]
}

} // verus!
