use vstd::prelude::*;
use crate::prefix::{apart, has_prefix, lemma_concat_prefix, lemma_prefix_both, moved, rekeyed};
use crate::store::{
    canonical_folder_path, closed_from, lists, prior_walk, subtree_deleted, subtree_of, tombstoned_copy, upsert_step,
    State,
};
use crate::types::{FileMetadata, FolderMetadata};

verus! {

/// A folder that `create_folder` returned is the folder that a lookup of its
/// canonical path finds, under the same id.
pub proof fn lemma_created_folder_found(s: State, path: Seq<char>, f: FolderMetadata)
    requires
        s.wf(),
        s.folder_index().contains_key(canonical_folder_path(path)),
        s.folder_index()[canonical_folder_path(path)]@ == f.id@,
        s.folder_map().contains_key(f.id@),
    ensures
        s.folder_map()[s.folder_index()[canonical_folder_path(path)]@].id@ == f.id@,
{
    s.lemma_wf_facts();
}

/// Moving the keys under `o` to `n`: every key under `o` stops resolving, its moved
/// form resolves to the same id, and every other key keeps its binding.
pub proof fn lemma_rekeyed_moves_subtree(m: Map<Seq<char>, String>, o: Seq<char>, n: Seq<char>)
    requires
        apart(o, n),
        forall|k: Seq<char>| #[trigger] m.contains_key(k) ==> !has_prefix(k, n),
    ensures
        forall|k: Seq<char>| #[trigger] m.contains_key(k) && has_prefix(k, o) ==> !rekeyed(m, o, n).contains_key(k)
            && rekeyed(m, o, n).contains_key(moved(k, o, n)) && rekeyed(m, o, n)[moved(k, o, n)] == m[k],
        forall|k: Seq<char>| #[trigger] m.contains_key(k) && !has_prefix(k, o) ==> rekeyed(m, o, n).contains_key(k)
            && rekeyed(m, o, n)[k] == m[k],
        forall|k: Seq<char>| #[trigger] rekeyed(m, o, n).contains_key(k) ==> !has_prefix(k, o),
{
    assert forall|k: Seq<char>| #[trigger] m.contains_key(k) && has_prefix(k, o) implies !rekeyed(m, o, n).contains_key(k)
        && rekeyed(m, o, n).contains_key(moved(k, o, n)) && rekeyed(m, o, n)[moved(k, o, n)] == m[k] by {
        let rest = k.subrange(o.len() as int, k.len() as int);
        lemma_concat_prefix(n, rest);
        assert(o + rest =~= k);
    }
    assert forall|k: Seq<char>| #[trigger] rekeyed(m, o, n).contains_key(k) implies !has_prefix(k, o) by {
        if has_prefix(k, o) && has_prefix(k, n) {
            lemma_prefix_both(k, o, n);
        }
    }
}

/// Renaming a folder whose old path is `o` and new path is `n` updates every
/// descendant path in both indices: each old one stops resolving, each new one
/// resolves to the same id as the old one did, and the other paths are untouched.
pub proof fn lemma_rename_updates_descendants(s0: State, s1: State, o: Seq<char>, n: Seq<char>)
    requires
        apart(o, n),
        forall|k: Seq<char>| #[trigger] s0.folder_index().contains_key(k) ==> !has_prefix(k, n),
        forall|k: Seq<char>| #[trigger] s0.file_index().contains_key(k) ==> !has_prefix(k, n),
        s1.folder_index() == rekeyed(s0.folder_index(), o, n),
        s1.file_index() == rekeyed(s0.file_index(), o, n),
    ensures
        forall|k: Seq<char>| #[trigger] s0.folder_index().contains_key(k) && has_prefix(k, o)
            ==> !s1.folder_index().contains_key(k) && s1.folder_index().contains_key(moved(k, o, n))
            && s1.folder_index()[moved(k, o, n)] == s0.folder_index()[k],
        forall|k: Seq<char>| #[trigger] s0.file_index().contains_key(k) && has_prefix(k, o)
            ==> !s1.file_index().contains_key(k) && s1.file_index().contains_key(moved(k, o, n))
            && s1.file_index()[moved(k, o, n)] == s0.file_index()[k],
        forall|k: Seq<char>| #[trigger] s0.folder_index().contains_key(k) && !has_prefix(k, o)
            ==> s1.folder_index().contains_key(k) && s1.folder_index()[k] == s0.folder_index()[k],
        forall|k: Seq<char>| #[trigger] s0.file_index().contains_key(k) && !has_prefix(k, o)
            ==> s1.file_index().contains_key(k) && s1.file_index()[k] == s0.file_index()[k],
{
    lemma_rekeyed_moves_subtree(s0.folder_index(), o, n);
    lemma_rekeyed_moves_subtree(s0.file_index(), o, n);
}

/// `b` is a stored folder that the stored folder `a` lists.
#[verifier::opaque]
pub open spec fn lists_stored(m: Map<Seq<char>, FolderMetadata>, a: Seq<char>, b: Seq<char>) -> bool {
    m.contains_key(a) && lists(m[a].subfolder_uuids@, b) && m.contains_key(b)
}

/// `chain` leads from its first folder down the subfolder lists of `m`, through
/// stored folders.
pub open spec fn down_chain(m: Map<Seq<char>, FolderMetadata>, chain: Seq<Seq<char>>) -> bool {
    &&& chain.len() > 0
    &&& forall|i: int| 1 <= i < chain.len() ==> #[trigger] lists_stored(m, chain[i - 1], chain[i])
}

#[verifier::rlimit(40)]
proof fn lemma_chain_in_subtree(m: Map<Seq<char>, FolderMetadata>, v: Set<Seq<char>>, chain: Seq<Seq<char>>)
    requires
        closed_from(m, chain[0], v),
        down_chain(m, chain),
    ensures
        v.contains(chain.last()),
    decreases chain.len(),
{
    if chain.len() > 1 {
        let prev = chain.drop_last();
        assert forall|i: int| 1 <= i < prev.len() implies #[trigger] lists_stored(m, prev[i - 1], prev[i]) by {
            assert(prev[i] == chain[i]);
            assert(prev[i - 1] == chain[i - 1]);
            assert(lists_stored(m, chain[i - 1], chain[i]));
        }
        assert(prev[0] == chain[0]);
        lemma_chain_in_subtree(m, v, prev);
        let c = prev.last();
        let d = chain.last();
        assert(chain[chain.len() - 1] == d);
        assert(chain[chain.len() - 2] == c);
        assert(lists_stored(m, chain[chain.len() - 2], chain[chain.len() - 1]));
        reveal(lists_stored);
        let i = choose|i: int| 0 <= i < m[c].subfolder_uuids@.len() && #[trigger] m[c].subfolder_uuids@[i]@ == d;
        assert(v.contains(c) && m.contains_key(c));
        assert(v.contains(m[c].subfolder_uuids@[i]@));
    }
}

/// After `delete_folder(chain[0])`, every folder reached from it down the
/// subfolder lists, whatever its state, is tombstoned with its other fields kept,
/// its path no longer resolves, and the files it lists are purged.
pub proof fn lemma_delete_reaches_descendants(s0: State, s1: State, v: Set<Seq<char>>, chain: Seq<Seq<char>>)
    requires
        subtree_of(s0.folder_map(), chain[0], v),
        subtree_deleted(s0, s1, v),
        down_chain(s0.folder_map(), chain),
    ensures
        ({
            let d = chain.last();
            &&& s1.folder_map().contains_key(d)
            &&& tombstoned_copy(s0.folder_map()[d], s1.folder_map()[d])
            &&& !s1.folder_index().contains_key(s0.folder_map()[d].full_folder_path@)
            &&& forall|i: int| 0 <= i < s0.folder_map()[d].file_uuids@.len()
                ==> !s1.file_map().contains_key(#[trigger] s0.folder_map()[d].file_uuids@[i]@)
        }),
{
    lemma_chain_in_subtree(s0.folder_map(), v, chain);
    assert(v.contains(chain.last()));
}

/// The records made by `k` consecutive upserts to one path, starting from a store
/// where the path was free, form a chain: the `j`-th of them has version `j + 1`
/// and links back to the one before it, the first to none.
pub open spec fn chain_of(files: Map<Seq<char>, FileMetadata>, ids: Seq<Seq<char>>, k: int) -> bool {
    forall|j: int| #![trigger ids[j]] 0 <= j < k ==> {
        &&& files.contains_key(ids[j])
        &&& files[ids[j]].file_version == j + 1
        &&& if j == 0 {
            files[ids[j]].prior_version is None
        } else {
            files[ids[j]].prior_version matches Some(p) && p@ == ids[j - 1]
        }
    }
}

proof fn lemma_upserts_build_chain(states: Seq<State>, ids: Seq<Seq<char>>, p: Seq<char>, k: int)
    requires
        0 <= k < states.len(),
        states.len() == ids.len() + 1,
        !states[0].file_index().contains_key(p),
        forall|i: int| #![trigger states[i]] 1 <= i <= ids.len() ==> upsert_step(states[i - 1], states[i], p, ids[i - 1]),
    ensures
        chain_of(states[k].file_map(), ids, k),
        k > 0 ==> states[k].file_index().contains_key(p) && states[k].file_index()[p]@ == ids[k - 1],
    decreases k,
{
    if k > 0 {
        lemma_upserts_build_chain(states, ids, p, k - 1);
        let s0 = states[k - 1];
        let s1 = states[k];
        assert(upsert_step(states[k - 1], states[k], p, ids[k - 1]));
        assert forall|j: int| #![trigger ids[j]] 0 <= j < k implies {
            &&& s1.file_map().contains_key(ids[j])
            &&& s1.file_map()[ids[j]].file_version == j + 1
            &&& if j == 0 {
                s1.file_map()[ids[j]].prior_version is None
            } else {
                s1.file_map()[ids[j]].prior_version matches Some(q) && q@ == ids[j - 1]
            }
        } by {
            if j < k - 1 {
                assert(s0.file_map().contains_key(ids[j]));
                if k - 1 > 0 && ids[j] == s0.file_index()[p]@ {
                    assert(j == k - 2);
                }
            }
        }
    }
}

/// After `k` consecutive upserts to one path, starting where the path was free,
/// walking `prior_version` from the head at that path meets exactly the `k`
/// records made, newest first, with versions `k, k - 1, ..., 1`.
pub proof fn lemma_upsert_chain(states: Seq<State>, ids: Seq<Seq<char>>, p: Seq<char>)
    requires
        states.len() == ids.len() + 1,
        ids.len() > 0,
        !states[0].file_index().contains_key(p),
        forall|i: int| #![trigger states[i]] 1 <= i <= ids.len() ==> upsert_step(states[i - 1], states[i], p, ids[i - 1]),
    ensures
        ({
            let last = states[ids.len() as int];
            let k = ids.len() as int;
            &&& last.file_index()[p]@ == ids[k - 1]
            &&& prior_walk(last.file_map(), ids[k - 1], k as nat) == ids.reverse()
            &&& forall|j: int| 0 <= j < k ==> #[trigger] last.file_map()[ids.reverse()[j]].file_version == k - j
        }),
{
    let k = ids.len() as int;
    lemma_upserts_build_chain(states, ids, p, k);
    let files = states[k].file_map();
    lemma_walk_chain(files, ids, k - 1);
    assert(ids.subrange(0, k) =~= ids);
    assert forall|j: int| 0 <= j < k implies #[trigger] files[ids.reverse()[j]].file_version == k - j by {
        assert(ids.reverse()[j] == ids[k - 1 - j]);
    }
}

#[verifier::rlimit(40)]
proof fn lemma_walk_chain(files: Map<Seq<char>, FileMetadata>, ids: Seq<Seq<char>>, j: int)
    requires
        0 <= j < ids.len(),
        chain_of(files, ids, ids.len() as int),
    ensures
        prior_walk(files, ids[j], (j + 1) as nat) == ids.subrange(0, j + 1).reverse(),
    decreases j,
{
    assert(files.contains_key(ids[j]));
    if j == 0 {
        assert(ids.subrange(0, 1).reverse() =~= seq![ids[0]]);
        assert(prior_walk(files, ids[0], 1) =~= seq![ids[0]]);
    } else {
        lemma_walk_chain(files, ids, j - 1);
        let q = files[ids[j]].prior_version->0;
        assert(q@ == ids[j - 1]);
        assert(ids.subrange(0, j + 1).reverse() =~= seq![ids[j]] + ids.subrange(0, j).reverse());
    }
}

} // verus!
