use vstd::prelude::*;
use crate::path::string_of;
use crate::table::{keys_unique, Table};
use crate::types::{FileMetadata, FolderMetadata};

verus! {

/// `k` starts with `o`.
pub open spec fn has_prefix(k: Seq<char>, o: Seq<char>) -> bool {
    o.len() <= k.len() && k.subrange(0, o.len() as int) == o
}

/// `k` with its prefix `o` replaced by `n`; `k` itself where it does not start with `o`.
pub open spec fn moved(k: Seq<char>, o: Seq<char>, n: Seq<char>) -> Seq<char> {
    if has_prefix(k, o) {
        n + k.subrange(o.len() as int, k.len() as int)
    } else {
        k
    }
}

/// Neither of the two is a prefix of the other.
pub open spec fn apart(o: Seq<char>, n: Seq<char>) -> bool {
    !has_prefix(o, n) && !has_prefix(n, o)
}

/// `m` with every key under `o` moved under `n`.
pub open spec fn rekeyed<V>(m: Map<Seq<char>, V>, o: Seq<char>, n: Seq<char>) -> Map<Seq<char>, V> {
    Map::new(
        |k: Seq<char>|
            if has_prefix(k, n) {
                m.contains_key(o + k.subrange(n.len() as int, k.len() as int))
            } else {
                !has_prefix(k, o) && m.contains_key(k)
            },
        |k: Seq<char>|
            if has_prefix(k, n) {
                m[o + k.subrange(n.len() as int, k.len() as int)]
            } else {
                m[k]
            },
    )
}

pub proof fn lemma_prefix_both(k: Seq<char>, o: Seq<char>, n: Seq<char>)
    requires
        has_prefix(k, o),
        has_prefix(k, n),
    ensures
        has_prefix(o, n) || has_prefix(n, o),
{
    if o.len() <= n.len() {
        assert(n.subrange(0, o.len() as int) =~= k.subrange(0, o.len() as int));
    } else {
        assert(o.subrange(0, n.len() as int) =~= k.subrange(0, n.len() as int));
    }
}

pub proof fn lemma_concat_prefix(a: Seq<char>, rest: Seq<char>)
    ensures
        has_prefix(a + rest, a),
        (a + rest).subrange(a.len() as int, (a + rest).len() as int) == rest,
{
    assert((a + rest).subrange(0, a.len() as int) =~= a);
    assert((a + rest).subrange(a.len() as int, (a + rest).len() as int) =~= rest);
}

pub proof fn lemma_split_prefix(k: Seq<char>, o: Seq<char>)
    requires
        has_prefix(k, o),
    ensures
        o + k.subrange(o.len() as int, k.len() as int) == k,
{
    assert(o + k.subrange(o.len() as int, k.len() as int) =~= k);
}

/// Keys that do not start with `n` are moved to distinct places.
pub proof fn lemma_moved_injective(a: Seq<char>, b: Seq<char>, o: Seq<char>, n: Seq<char>)
    requires
        a != b,
        !has_prefix(a, n),
        !has_prefix(b, n),
    ensures
        moved(a, o, n) != moved(b, o, n),
{
    let ra = a.subrange(o.len() as int, a.len() as int);
    let rb = b.subrange(o.len() as int, b.len() as int);
    lemma_concat_prefix(n, ra);
    lemma_concat_prefix(n, rb);
    if has_prefix(a, o) && has_prefix(b, o) {
        lemma_split_prefix(a, o);
        lemma_split_prefix(b, o);
    }
}

pub fn starts_with(k: &Vec<char>, o: &Vec<char>) -> (r: bool)
    ensures
        r == has_prefix(k@, o@),
{
    if o.len() > k.len() {
        return false;
    }
    let mut i: usize = 0;
    while i < o.len()
        invariant
            o@.len() <= k@.len(),
            i <= o@.len(),
            forall|j: int| 0 <= j < i ==> k@[j] == o@[j],
        decreases o@.len() - i,
    {
        if k[i] != o[i] {
            return false;
        }
        i = i + 1;
    }
    proof {
        assert(k@.subrange(0, o@.len() as int) =~= o@);
    }
    true
}

/// The string `moved(k, o, n)`.
pub fn move_key(k: &String, o: &Vec<char>, n: &Vec<char>) -> (r: String)
    ensures
        r@ == moved(k@, o@, n@),
{
    let kc = crate::path::chars_of(k.as_str());
    if starts_with(&kc, o) {
        let mut v = crate::path::copy_range(n, 0, n.len());
        let rest = crate::path::copy_range(&kc, o.len(), kc.len());
        crate::path::append_chars(&mut v, &rest);
        proof {
            assert(n@.subrange(0, n@.len() as int) =~= n@);
        }
        string_of(&v)
    } else {
        k.clone()
    }
}

/// A path index with every key under `o` moved under `n`.
pub fn rekey(t: &Table<String>, o: &Vec<char>, n: &Vec<char>) -> (r: Table<String>)
    requires
        t.wf(),
        apart(o@, n@),
        forall|k: Seq<char>| #[trigger] t@.contains_key(k) ==> !has_prefix(k, n@),
    ensures
        r.wf(),
        r@ == rekeyed(t@, o@, n@),
{
    proof {
        t.lemma_key_seq();
    }
    let ghost ks = t.key_seq();
    let ghost vs = t.val_seq();
    proof {
        assert forall|j: int| 0 <= j < ks.len() implies !has_prefix(#[trigger] ks[j]@, n@) by {
            assert(t@.contains_key(t.key_seq()[j]@));
        }
    }
    let mut r: Table<String> = Table::new();
    let mut i: usize = 0;
    while i < t.len()
        invariant
            t.wf(),
            ks == t.key_seq(),
            vs == t.val_seq(),
            vs.len() == ks.len(),
            keys_unique(ks),
            forall|j: int| 0 <= j < ks.len() ==> !has_prefix(#[trigger] ks[j]@, n@),
            i <= ks.len(),
            r.wf(),
            forall|j: int| #![trigger ks[j]] 0 <= j < i ==> r@.contains_key(moved(ks[j]@, o@, n@)) && r@[moved(
                ks[j]@,
                o@,
                n@,
            )] == vs[j],
            forall|k: Seq<char>| #[trigger] r@.contains_key(k) ==> exists|j: int|
                0 <= j < i && moved(ks[j]@, o@, n@) == k,
        decreases ks.len() - i,
    {
        let k = t.key_at(i);
        let nk = move_key(k, o, n);
        let v = t.value_at(i).clone();
        let ghost r0 = r@;
        r.insert(nk, v);
        proof {
            assert forall|j: int| #![trigger ks[j]] 0 <= j < i + 1 implies r@.contains_key(moved(ks[j]@, o@, n@))
                && r@[moved(ks[j]@, o@, n@)] == vs[j] by {
                if j < i {
                    assert(ks[j]@ != ks[i as int]@);
                    lemma_moved_injective(ks[j]@, ks[i as int]@, o@, n@);
                }
            }
            assert forall|k: Seq<char>| #[trigger] r@.contains_key(k) implies exists|j: int|
                0 <= j < i + 1 && moved(ks[j]@, o@, n@) == k by {
                if k != moved(ks[i as int]@, o@, n@) {
                    assert(r0.contains_key(k));
                }
            }
        }
        i = i + 1;
    }
    proof {
        let m = t@;
        assert forall|k: Seq<char>| #[trigger] r@.contains_key(k) == rekeyed(m, o@, n@).contains_key(k) && (
            r@.contains_key(k) ==> r@[k] == rekeyed(m, o@, n@)[k]) by {
            if r@.contains_key(k) {
                let j = choose|j: int| 0 <= j < ks.len() && moved(ks[j]@, o@, n@) == k;
                let kj = ks[j]@;
                assert(m.contains_key(kj));
                if has_prefix(kj, o@) {
                    let rest = kj.subrange(o@.len() as int, kj.len() as int);
                    lemma_concat_prefix(n@, rest);
                    lemma_split_prefix(kj, o@);
                } else {
                    assert(!has_prefix(kj, n@));
                }
            }
            if rekeyed(m, o@, n@).contains_key(k) {
                let src = if has_prefix(k, n@) {
                    o@ + k.subrange(n@.len() as int, k.len() as int)
                } else {
                    k
                };
                assert(m.contains_key(src));
                let j = choose|j: int| 0 <= j < ks.len() && ks[j]@ == src;
                if has_prefix(k, n@) {
                    lemma_concat_prefix(o@, k.subrange(n@.len() as int, k.len() as int));
                    lemma_split_prefix(k, n@);
                }
                assert(moved(ks[j]@, o@, n@) == k);
                assert(r@.contains_key(moved(ks[j]@, o@, n@)));
            }
        }
        assert(r@ =~= rekeyed(m, o@, n@));
    }
    r
}

/// `b` is `a` with, at most, another path.
pub open spec fn folder_same_but_path(a: FolderMetadata, b: FolderMetadata) -> bool {
    &&& a.id == b.id
    &&& a.original_folder_name == b.original_folder_name
    &&& a.parent_folder_uuid == b.parent_folder_uuid
    &&& a.subfolder_uuids@ == b.subfolder_uuids@
    &&& a.file_uuids@ == b.file_uuids@
    &&& a.tags@ == b.tags@
    &&& a.owner == b.owner
    &&& a.created_date == b.created_date
    &&& a.storage_location == b.storage_location
    &&& a.last_changed_unix_ms == b.last_changed_unix_ms
    &&& a.deleted == b.deleted
}

/// `b` is `a` with, at most, another path.
pub open spec fn file_same_but_path(a: FileMetadata, b: FileMetadata) -> bool {
    &&& a.id == b.id
    &&& a.original_file_name == b.original_file_name
    &&& a.folder_uuid == b.folder_uuid
    &&& a.file_version == b.file_version
    &&& a.prior_version == b.prior_version
    &&& a.next_version == b.next_version
    &&& a.extension == b.extension
    &&& a.tags@ == b.tags@
    &&& a.owner == b.owner
    &&& a.created_date == b.created_date
    &&& a.storage_location == b.storage_location
    &&& a.file_size == b.file_size
    &&& a.raw_url == b.raw_url
    &&& a.last_changed_unix_ms == b.last_changed_unix_ms
    &&& a.deleted == b.deleted
}

/// Moves the path of every folder record under `o` to the same place under `n`.
pub fn move_folder_records(t: &mut Table<FolderMetadata>, o: &Vec<char>, n: &Vec<char>)
    requires
        old(t).wf(),
    ensures
        final(t).wf(),
        final(t)@.dom() == old(t)@.dom(),
        forall|x: Seq<char>| #[trigger] final(t)@.contains_key(x) ==> folder_same_but_path(
            old(t)@[x],
            final(t)@[x],
        ) && final(t)@[x].full_folder_path@ == moved(old(t)@[x].full_folder_path@, o@, n@),
{
    proof {
        t.lemma_key_seq();
    }
    let ghost ks = t.key_seq();
    let ghost m0 = t@;
    let mut i: usize = 0;
    while i < t.len()
        invariant
            t.wf(),
            ks == t.key_seq(),
            keys_unique(ks),
            i <= ks.len(),
            t@.dom() == m0.dom(),
            forall|j: int| #![trigger ks[j]] 0 <= j < i ==> folder_same_but_path(m0[ks[j]@], t@[ks[j]@])
                && t@[ks[j]@].full_folder_path@ == moved(m0[ks[j]@].full_folder_path@, o@, n@),
            forall|j: int| #![trigger ks[j]] i <= j < ks.len() ==> t@[ks[j]@] == m0[ks[j]@],
        decreases ks.len() - i,
    {
        proof {
            t.lemma_key_seq();
        }
        let key = t.key_at(i).clone();
        let f = t.value_at(i);
        let pc = crate::path::chars_of(f.full_folder_path.as_str());
        if starts_with(&pc, o) {
            let mut rec = f.duplicate();
            rec.full_folder_path = move_key(&f.full_folder_path, o, n);
            let ghost t0 = t@;
            t.insert(key, rec);
            proof {
                assert(t@.dom() =~= t0.dom());
                assert forall|j: int| #![trigger ks[j]] 0 <= j < ks.len() && j != i implies t@[ks[j]@] == t0[ks[j]@] by {
                    assert(ks[j]@ != ks[i as int]@);
                }
            }
        }
        i = i + 1;
    }
    proof {
        t.lemma_key_seq();
        assert forall|x: Seq<char>| #[trigger] t@.contains_key(x) implies folder_same_but_path(m0[x], t@[x])
            && t@[x].full_folder_path@ == moved(m0[x].full_folder_path@, o@, n@) by {
            let j = choose|j: int| 0 <= j < ks.len() && ks[j]@ == x;
        }
    }
}

/// Moves the path of every file record under `o` to the same place under `n`.
pub fn move_file_records(t: &mut Table<FileMetadata>, o: &Vec<char>, n: &Vec<char>)
    requires
        old(t).wf(),
    ensures
        final(t).wf(),
        final(t)@.dom() == old(t)@.dom(),
        forall|x: Seq<char>| #[trigger] final(t)@.contains_key(x) ==> file_same_but_path(
            old(t)@[x],
            final(t)@[x],
        ) && final(t)@[x].full_file_path@ == moved(old(t)@[x].full_file_path@, o@, n@),
{
    proof {
        t.lemma_key_seq();
    }
    let ghost ks = t.key_seq();
    let ghost m0 = t@;
    let mut i: usize = 0;
    while i < t.len()
        invariant
            t.wf(),
            ks == t.key_seq(),
            keys_unique(ks),
            i <= ks.len(),
            t@.dom() == m0.dom(),
            forall|j: int| #![trigger ks[j]] 0 <= j < i ==> file_same_but_path(m0[ks[j]@], t@[ks[j]@])
                && t@[ks[j]@].full_file_path@ == moved(m0[ks[j]@].full_file_path@, o@, n@),
            forall|j: int| #![trigger ks[j]] i <= j < ks.len() ==> t@[ks[j]@] == m0[ks[j]@],
        decreases ks.len() - i,
    {
        proof {
            t.lemma_key_seq();
        }
        let key = t.key_at(i).clone();
        let f = t.value_at(i);
        let pc = crate::path::chars_of(f.full_file_path.as_str());
        if starts_with(&pc, o) {
            let mut rec = f.duplicate();
            rec.full_file_path = move_key(&f.full_file_path, o, n);
            let ghost t0 = t@;
            t.insert(key, rec);
            proof {
                assert(t@.dom() =~= t0.dom());
                assert forall|j: int| #![trigger ks[j]] 0 <= j < ks.len() && j != i implies t@[ks[j]@] == t0[ks[j]@] by {
                    assert(ks[j]@ != ks[i as int]@);
                }
            }
        }
        i = i + 1;
    }
    proof {
        t.lemma_key_seq();
        assert forall|x: Seq<char>| #[trigger] t@.contains_key(x) implies file_same_but_path(m0[x], t@[x])
            && t@[x].full_file_path@ == moved(m0[x].full_file_path@, o@, n@) by {
            let j = choose|j: int| 0 <= j < ks.len() && ks[j]@ == x;
        }
    }
}

/// Whether some key of the index starts with `n`.
pub fn any_key_under(t: &Table<String>, n: &Vec<char>) -> (r: bool)
    requires
        t.wf(),
    ensures
        r == exists|k: Seq<char>| #[trigger] t@.contains_key(k) && has_prefix(k, n@),
{
    proof {
        t.lemma_key_seq();
    }
    let mut i: usize = 0;
    while i < t.len()
        invariant
            t.wf(),
            i <= t.key_seq().len(),
            forall|j: int| 0 <= j < i ==> !has_prefix(#[trigger] t.key_seq()[j]@, n@),
        decreases t.key_seq().len() - i,
    {
        let k = crate::path::chars_of(t.key_at(i).as_str());
        if starts_with(&k, n) {
            proof {
                t.lemma_key_seq();
                assert(t@.contains_key(t.key_seq()[i as int]@));
            }
            return true;
        }
        i = i + 1;
    }
    proof {
        t.lemma_key_seq();
        assert forall|k: Seq<char>| #[trigger] t@.contains_key(k) implies !has_prefix(k, n@) by {
            let j = choose|j: int| 0 <= j < t.key_seq().len() && t.key_seq()[j]@ == k;
        }
    }
    false
}

/// Two sibling folder paths with different names lie apart.
pub proof fn lemma_sibling_paths_apart(base: Seq<char>, a: Seq<char>, b: Seq<char>)
    requires
        a != b,
        forall|i: int| 0 <= i < a.len() ==> a[i] != '/',
        forall|i: int| 0 <= i < b.len() ==> b[i] != '/',
    ensures
        apart(base + a + seq!['/'], base + b + seq!['/']),
{
    lemma_sibling_not_prefix(base, a, b);
    lemma_sibling_not_prefix(base, b, a);
}

proof fn lemma_sibling_not_prefix(base: Seq<char>, a: Seq<char>, b: Seq<char>)
    requires
        a != b,
        forall|i: int| 0 <= i < a.len() ==> a[i] != '/',
        forall|i: int| 0 <= i < b.len() ==> b[i] != '/',
    ensures
        !has_prefix(base + b + seq!['/'], base + a + seq!['/']),
{
    let x = base + a + seq!['/'];
    let y = base + b + seq!['/'];
    if has_prefix(y, x) {
        let bl = base.len() as int;
        if a.len() < b.len() {
            assert(x[bl + a.len()] == '/');
            assert(y[bl + a.len()] == b[a.len() as int]);
            assert(y.subrange(0, x.len() as int)[bl + a.len()] == y[bl + a.len()]);
        } else {
            assert(a.len() == b.len());
            assert forall|i: int| 0 <= i < a.len() implies a[i] == b[i] by {
                assert(x[bl + i] == a[i]);
                assert(y[bl + i] == b[i]);
                assert(y.subrange(0, x.len() as int)[bl + i] == y[bl + i]);
            }
            assert(a =~= b);
        }
    }
}

} // verus!
