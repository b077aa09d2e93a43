//! The folder reconciler: matches the entries of a new working tree
//! against the children of an old folder commit, so that each new entry
//! advances the chain of its best predecessor and only truly new content
//! starts a fresh chain.

use vstd::prelude::*;
use crate::cid::U232;
use crate::record::{RepoFileType, aspect_of, clone_bytes};
use crate::storage::StorageRepo;
use crate::store::bytes_eq;
use crate::worktree::WorkNode;
use crate::hashing::spec_hash_cid;

verus! {

broadcast use crate::cid::lemma_u232_view_len;

/// Whether every child of a folder commit resolves from its own record
/// alone: it is readable and is a delete, a folder origin, or carries a
/// rename. Children like these never send the resolver down a chain.
pub open spec fn spec_kids_resolve(repo: StorageRepo, kids: Seq<Seq<u8>>, i: int) -> bool
    decreases kids.len() - i,
{
    if i < 0 || i >= kids.len() {
        true
    } else {
        let ok = repo.lookup_ok(kids[i]) && ({
            let h = repo.lookup(kids[i]);
            aspect_of(h, 0x05) is Delete || aspect_of(h, 0x0D) is NewFolder || aspect_of(
                h,
                0x04,
            ) is Rename
        });
        ok && spec_kids_resolve(repo, kids, i + 1)
    }
}

/// Whether a folder commit's children all resolve from their own
/// records: the class on which child resolution always succeeds.
pub open spec fn spec_subs_resolve(repo: StorageRepo, id: Seq<u8>) -> bool {
    &&& repo.lookup_ok(id)
    &&& aspect_of(repo.lookup(id), 0x0F) is Folder
    &&& spec_kids_resolve(repo, aspect_of(repo.lookup(id), 0x0F)->Folder_0, 0)
}

/// The children a folder commit resolves to, under the class where each
/// child's own record decides: deleted children are skipped, folder
/// origins and renames carry the name and kind.
pub open spec fn spec_resolved_subs(
    repo: StorageRepo,
    kids: Seq<Seq<u8>>,
    i: int,
) -> Seq<(Seq<u8>, Seq<u8>, bool)>
    decreases kids.len() - i,
{
    if i < 0 || i >= kids.len() {
        Seq::empty()
    } else {
        let rest = spec_resolved_subs(repo, kids, i + 1);
        let h = repo.lookup(kids[i]);
        if aspect_of(h, 0x05) is Delete {
            rest
        } else if aspect_of(h, 0x0D) is NewFolder {
            seq![(kids[i], aspect_of(h, 0x0D)->NewFolder_0, true)] + rest
        } else {
            seq![(kids[i], aspect_of(h, 0x04)->Rename_0, false)] + rest
        }
    }
}

/// The bytes an old file candidate rebuilds to.
pub open spec fn spec_old_file_bytes(repo: StorageRepo, id: Seq<u8>) -> Seq<u8> {
    crate::storage::spec_assemble_bytes(
        crate::storage::spec_chain(repo, id, crate::storage::spec_chain_bound(repo)),
    )
}

/// The difference score between an old file and new bytes, as a
/// percentage numerator: one hundred times the count of differing bytes
/// after the old bytes are brought to the new length, plus the length
/// gap.
pub open spec fn spec_near_rate(repo: StorageRepo, id: Seq<u8>, data: Seq<u8>) -> int {
    let ob = spec_old_file_bytes(repo, id);
    let resized = crate::delta::spec_resize(ob, data.len() as int);
    let gap: int = if ob.len() >= data.len() {
        ob.len() - data.len()
    } else {
        data.len() - ob.len()
    };
    100 * (crate::codec::spec_vec_diff(resized, data, 0).len() + gap)
}

/// Whether an old file candidate is near enough: a file entry whose
/// score stays under a quarter of the new length.
pub open spec fn spec_near_ok(repo: StorageRepo, lo: Seq<OldSub>, k: int, data: Seq<u8>) -> bool {
    &&& 0 <= k < lo.len()
    &&& !lo[k].is_folder
    &&& spec_near_rate(repo, lo[k].id@, data) < 25 * data.len()
}

/// Whether every file candidate's chain ends within the record budget,
/// as every chain of hash-linked records does.
pub open spec fn spec_chains_short(repo: StorageRepo, lo: Seq<OldSub>) -> bool {
    forall|k: int|
        (0 <= k < lo.len() && !(#[trigger] lo[k]).is_folder) ==> crate::storage::spec_chain(
            repo,
            lo[k].id@,
            crate::storage::spec_chain_bound(repo),
        ).len() < crate::storage::spec_chain_bound(repo)
}

/// The entries of a child list as bare triples.
pub open spec fn spec_sub_triples(subs: Seq<OldSub>) -> Seq<(Seq<u8>, Seq<u8>, bool)> {
    Seq::new(subs.len(), |j: int| (subs[j].id@, subs[j].name@, subs[j].is_folder))
}

/// A new working-tree entry reduced to what the folder scorer reads:
/// a file carries its content digest, a folder a placeholder
/// identifier, and both their name and kind.
pub open spec fn spec_new_items(entries: Seq<WorkNode>, i: int) -> Seq<(Seq<u8>, Seq<u8>, bool)>
    decreases entries.len() - i,
{
    if i < 0 || i >= entries.len() {
        Seq::empty()
    } else {
        let head = match entries[i] {
            WorkNode::File { name, data } => seq![(spec_hash_cid(data@), name@, false)],
            WorkNode::Folder { name, .. } => seq![(crate::cid::zero_cid(), name@, true)],
        };
        head + spec_new_items(entries, i + 1)
    }
}

/// One scan of an old folder's remaining entries against one new
/// entry: a shared name of one kind scores two and ends the scan,
/// matching file content adds one more, file content found under
/// another name scores one and remembers the entry, and a name match
/// of the other kind ends the scan unscored. Every step clamps the
/// running score to the scorer's working range.
pub open spec fn spec_scan_score(
    subs: Seq<(Seq<u8>, Seq<u8>, bool)>,
    item: (Seq<u8>, Seq<u8>, bool),
    found: Option<int>,
    rate: int,
    si: int,
) -> (Option<int>, int)
    decreases subs.len() - si,
{
    if si < 0 || si >= subs.len() {
        (found, rate)
    } else {
        let s = subs[si];
        if s.1 == item.1 {
            if s.2 && item.2 {
                (
                    Option::Some(si),
                    if rate <= 0x2000_0000 - 2 {
                        rate + 2
                    } else {
                        rate
                    },
                )
            } else if !s.2 && !item.2 {
                let r1 = if found is Some && rate >= -0x2000_0000 + 1 {
                    rate - 1
                } else {
                    rate
                };
                let r2 = if r1 <= 0x2000_0000 - 3 {
                    if s.0.subrange(1, 29) == item.0.subrange(1, 29) {
                        r1 + 3
                    } else {
                        r1 + 2
                    }
                } else {
                    r1
                };
                (Option::Some(si), r2)
            } else {
                (found, rate)
            }
        } else if !s.2 && !item.2 && s.0.subrange(1, 29) == item.0.subrange(1, 29) {
            spec_scan_score(
                subs,
                item,
                Option::Some(si),
                if rate <= 0x2000_0000 - 1 {
                    rate + 1
                } else {
                    rate
                },
                si + 1,
            )
        } else {
            spec_scan_score(subs, item, found, rate, si + 1)
        }
    }
}

/// The whole score of one old folder against the new entries: each new
/// entry scans what remains of the old entries, and a matched old
/// entry drops out of the later scans.
pub open spec fn spec_fold_score(
    subs: Seq<(Seq<u8>, Seq<u8>, bool)>,
    items: Seq<(Seq<u8>, Seq<u8>, bool)>,
    rate: int,
    ci: int,
) -> int
    decreases items.len() - ci,
{
    if ci < 0 || ci >= items.len() {
        rate
    } else {
        let p = spec_scan_score(subs, items[ci], Option::None, rate, 0);
        let rest = if p.0 is Some {
            subs.remove(p.0->0)
        } else {
            subs
        };
        spec_fold_score(rest, items, p.1, ci + 1)
    }
}

/// The score an old folder commit earns against the new entries,
/// starting from its resolved children.
pub open spec fn spec_folder_score(
    repo: StorageRepo,
    id: Seq<u8>,
    items: Seq<(Seq<u8>, Seq<u8>, bool)>,
) -> int {
    spec_fold_score(
        spec_resolved_subs(repo, aspect_of(repo.lookup(id), 0x0F)->Folder_0, 0),
        items,
        0,
        0,
    )
}

/// The triple view maps entry removal through.
proof fn lemma_triples_remove(subs: Seq<OldSub>, j: int)
    requires
        0 <= j < subs.len(),
    ensures
        spec_sub_triples(subs.remove(j)) == spec_sub_triples(subs).remove(j),
{
    assert(spec_sub_triples(subs.remove(j)) =~= spec_sub_triples(subs).remove(j));
}

/// Resolved children depend on lookups alone, so repositories that
/// answer every lookup alike agree on them.
proof fn lemma_resolved_subs_stable(r1: StorageRepo, r2: StorageRepo, kids: Seq<Seq<u8>>, i: int)
    requires
        forall|x: Seq<u8>| #[trigger]
            r1.lookup_ok(x) == r2.lookup_ok(x) && (r1.lookup_ok(x) ==> r1.lookup(x) == r2.lookup(
                x,
            )),
        spec_kids_resolve(r1, kids, i),
    ensures
        spec_resolved_subs(r1, kids, i) == spec_resolved_subs(r2, kids, i),
    decreases kids.len() - i,
{
    if 0 <= i < kids.len() {
        lemma_resolved_subs_stable(r1, r2, kids, i + 1);
        assert(r1.lookup_ok(kids[i]) == r2.lookup_ok(kids[i]) && (r1.lookup_ok(kids[i])
            ==> r1.lookup(kids[i]) == r2.lookup(kids[i])));
    }
}

/// Resolution classes depend on lookups alone, so repositories that
/// answer every lookup alike agree on them.
proof fn lemma_kids_resolve_stable(r1: StorageRepo, r2: StorageRepo, kids: Seq<Seq<u8>>, i: int)
    requires
        forall|x: Seq<u8>| #[trigger]
            r1.lookup_ok(x) == r2.lookup_ok(x) && (r1.lookup_ok(x) ==> r1.lookup(x) == r2.lookup(
                x,
            )),
    ensures
        spec_kids_resolve(r1, kids, i) == spec_kids_resolve(r2, kids, i),
    decreases kids.len() - i,
{
    if 0 <= i < kids.len() {
        lemma_kids_resolve_stable(r1, r2, kids, i + 1);
    }
}

proof fn lemma_subs_resolve_stable(r1: StorageRepo, r2: StorageRepo, id: Seq<u8>)
    requires
        forall|x: Seq<u8>| #[trigger]
            r1.lookup_ok(x) == r2.lookup_ok(x) && (r1.lookup_ok(x) ==> r1.lookup(x) == r2.lookup(
                x,
            )),
    ensures
        spec_subs_resolve(r1, id) == spec_subs_resolve(r2, id),
{
    assert(r1.lookup_ok(id) == r2.lookup_ok(id));
    if r1.lookup_ok(id) {
        assert(r1.lookup(id) == r2.lookup(id));
        if aspect_of(r1.lookup(id), 0x0F) is Folder {
            lemma_kids_resolve_stable(r1, r2, aspect_of(r1.lookup(id), 0x0F)->Folder_0, 0);
        }
    }
}

/// What is known of one child of an old folder commit: its identifier,
/// its resolved name, and whether it is a folder.
pub struct OldSub {
    pub id: U232,
    pub name: Vec<u8>,
    pub is_folder: bool,
}

/// The percentage of differing bytes above which an old file no longer
/// counts as a near match for a new one.
pub const MAX_DIFFERENCE_PERCENT: u64 = 25;

/// Resolves the children of a folder commit: each live child's
/// identifier, name and kind, with children that a delete record ended
/// left out. Nothing is returned when the commit is no folder or a
/// child chain is broken.
#[verifier::rlimit(100)]
#[verifier::spinoff_prover]
pub fn get_old_sub_info(store: &mut StorageRepo, folder_commit: U232) -> (r: Option<Vec<OldSub>>)
    ensures
        final(store).same_but_cache(old(store)),
        forall|x: Seq<u8>| #[trigger]
            final(store).lookup_ok(x) == old(store).lookup_ok(x) && (final(store).lookup_ok(x)
                ==> final(store).lookup(x) == old(store).lookup(x)),
        r is Some ==> old(store).lookup_ok(folder_commit@) && aspect_of(
            old(store).lookup(folder_commit@),
            0x0F,
        ) is Folder,
        // Resolution is owed when every child resolves from its own
        // record.
        spec_subs_resolve(*old(store), folder_commit@) ==> r is Some,
        // On that class, the entries are exactly the non-deleted
        // children, in child order, with their names and kinds.
        (spec_subs_resolve(*old(store), folder_commit@) && r is Some) ==> spec_sub_triples(
            r->0@,
        ) == spec_resolved_subs(
            *old(store),
            aspect_of(old(store).lookup(folder_commit@), 0x0F)->Folder_0,
            0,
        ),
        crate::storage::spec_lookups_monotone(*old(store), *final(store)),
{
    let commit = store.get_commit(folder_commit);
    let old_sub_ids: Vec<U232> = if let Some(c) = commit {
        if let RepoFileType::Folder(commits) = c.get_type(0x0F) {
            crate::record::clone_cids(commits)
        } else {
            return None;
        }
    } else {
        return None;
    };
    let ghost kids = aspect_of(old(store).lookup(folder_commit@), 0x0F)->Folder_0;
    proof {
        assert(old_sub_ids.deep_view() == kids);
    }

    let mut old_sub_commits: Vec<OldSub> = Vec::new();
    let mut i: usize = 0;
    while i < old_sub_ids.len()
        invariant
            store.same_but_cache(old(store)),
            forall|x: Seq<u8>| #[trigger]
                store.lookup_ok(x) == old(store).lookup_ok(x) && (store.lookup_ok(x)
                    ==> store.lookup(x) == old(store).lookup(x)),
            i <= old_sub_ids@.len(),
            old_sub_ids.deep_view() == kids,
            kids.len() == old_sub_ids@.len(),
            old(store).lookup_ok(folder_commit@),
            aspect_of(old(store).lookup(folder_commit@), 0x0F) is Folder,
            kids == aspect_of(old(store).lookup(folder_commit@), 0x0F)->Folder_0,
            spec_subs_resolve(*old(store), folder_commit@) ==> spec_resolved_subs(
                *old(store),
                kids,
                0,
            ) == spec_sub_triples(old_sub_commits@) + spec_resolved_subs(
                *old(store),
                kids,
                i as int,
            ),
        decreases old_sub_ids@.len() - i,
    {
        let ghost pre = *store;
        let item = old_sub_ids[i];
        proof {
            assert(item@ == kids[i as int]);
        }
        let history = store.get_commit_chain(item);
        proof {
            assert forall|x: Seq<u8>| #[trigger] store.lookup_ok(x) == old(store).lookup_ok(x)
                && (store.lookup_ok(x) ==> store.lookup(x) == old(store).lookup(x)) by {
                assert(pre.lookup_ok(x) == old(store).lookup_ok(x) && (pre.lookup_ok(x)
                    ==> pre.lookup(x) == old(store).lookup(x)));
                assert(store.lookup_ok(x) == pre.lookup_ok(x) && (store.lookup_ok(x)
                    ==> store.lookup(x) == pre.lookup(x)));
            }
            if spec_subs_resolve(*old(store), folder_commit@) {
                assert(spec_kids_resolve(*old(store), kids, 0));
                lemma_kids_resolve_unfold(*old(store), kids, i as int);
            }
        }
        if history.len() == 0 {
            proof {
                if spec_subs_resolve(*old(store), folder_commit@) {
                    assert(pre.lookup_ok(item@) == old(store).lookup_ok(item@));
                    assert(false);
                }
            }
            return None;
        }
        let is_delete = matches!(history[0].get_type(0x05), RepoFileType::Delete);
        proof {
            if spec_subs_resolve(*old(store), folder_commit@) && is_delete {
                assert(history.deep_view()[0] == history@[0]@);
                assert(history@[0]@ == pre.lookup(item@));
                assert(aspect_of(old(store).lookup(kids[i as int]), 0x05) is Delete);
                assert(spec_resolved_subs(*old(store), kids, i as int) == spec_resolved_subs(
                    *old(store),
                    kids,
                    i + 1,
                ));
            }
        }
        if !is_delete {
            // Walk to the nearest origin or rename for the child's name
            // and kind.
            let mut name: Option<Vec<u8>> = None;
            let mut is_folder = false;
            let mut k: usize = 0;
            while k < history.len()
                invariant_except_break
                    name is None,
                    k <= history@.len(),
                    history.deep_view().len() == history@.len(),
                    forall|j: int|
                        0 <= j < k ==> !(aspect_of(#[trigger] history.deep_view()[j], 0x0D)
                            is NewFolder) && !(aspect_of(history.deep_view()[j], 0x04) is Rename),
                invariant
                    k <= history@.len(),
                    history.deep_view().len() == history@.len(),
                ensures
                    name is None ==> forall|j: int|
                        0 <= j < history.deep_view().len() ==> !(aspect_of(
                            #[trigger] history.deep_view()[j],
                            0x0D,
                        ) is NewFolder) && !(aspect_of(history.deep_view()[j], 0x04) is Rename),
                    (history.deep_view().len() > 0 && aspect_of(history.deep_view()[0], 0x0D)
                        is NewFolder) ==> (name matches Option::Some(nm) && nm@ == aspect_of(
                        history.deep_view()[0],
                        0x0D,
                    )->NewFolder_0 && is_folder),
                    (history.deep_view().len() > 0 && !(aspect_of(history.deep_view()[0], 0x0D)
                        is NewFolder) && aspect_of(history.deep_view()[0], 0x04) is Rename)
                        ==> (name matches Option::Some(nm) && nm@ == aspect_of(
                        history.deep_view()[0],
                        0x04,
                    )->Rename_0 && !is_folder),
                decreases history@.len() - k,
            {
                let r_file = &history[k];
                proof {
                    assert(history.deep_view()[k as int] == history@[k as int]@);
                }
                if let RepoFileType::NewFolder(n) = r_file.get_type(0x0D) {
                    name = Some(clone_bytes(n));
                    is_folder = true;
                    break ;
                }
                if let RepoFileType::Rename(n) = r_file.get_type(0x04) {
                    name = Some(clone_bytes(n));
                    is_folder = false;
                    break ;
                }
                k = k + 1;
            }
            if let Some(name) = name {
                let ghost pre_triples = spec_sub_triples(old_sub_commits@);
                let ghost nmv = name@;
                let ghost kindv = is_folder;
                old_sub_commits.push(OldSub { id: item, name, is_folder });
                proof {
                    assert(spec_sub_triples(old_sub_commits@) =~= pre_triples.push(
                        (item@, nmv, kindv),
                    ));
                    if spec_subs_resolve(*old(store), folder_commit@) {
                        let h = old(store).lookup(kids[i as int]);
                        assert(history.deep_view()[0] == history@[0]@);
                        assert(history@[0]@ == pre.lookup(item@));
                        assert(history.deep_view()[0] == h);
                        assert(!(aspect_of(h, 0x05) is Delete));
                        assert(spec_resolved_subs(*old(store), kids, i as int) == seq![
                            (kids[i as int], nmv, kindv),
                        ] + spec_resolved_subs(*old(store), kids, i + 1));
                        assert((pre_triples + seq![(item@, nmv, kindv)]) + spec_resolved_subs(
                            *old(store),
                            kids,
                            i + 1,
                        ) =~= pre_triples + (seq![(item@, nmv, kindv)] + spec_resolved_subs(
                            *old(store),
                            kids,
                            i + 1,
                        )));
                    }
                }
            } else {
                proof {
                    if spec_subs_resolve(*old(store), folder_commit@) {
                        assert(spec_kids_resolve(*old(store), kids, 0));
                        lemma_kids_resolve_unfold(*old(store), kids, i as int);
                        // The child's own record resolves, so the scan's
                        // first step would have found a name.
                        assert(history.deep_view()[0] == history@[0]@);
                        assert(history@[0]@ == pre.lookup(item@));
                        assert(false);
                    }
                }
                return None;
            }
        }
        i = i + 1;
    }
    proof {
        if spec_subs_resolve(*old(store), folder_commit@) {
            assert(spec_resolved_subs(*old(store), kids, kids.len() as int)
                =~= Seq::<(Seq<u8>, Seq<u8>, bool)>::empty());
            assert(spec_sub_triples(old_sub_commits@) + spec_resolved_subs(
                *old(store),
                kids,
                kids.len() as int,
            ) =~= spec_sub_triples(old_sub_commits@));
        }
    }
    Some(old_sub_commits)
}

/// Each position of a resolving child list resolves.
proof fn lemma_kids_resolve_unfold(repo: StorageRepo, kids: Seq<Seq<u8>>, i: int)
    requires
        spec_kids_resolve(repo, kids, 0),
        0 <= i < kids.len(),
    ensures
        repo.lookup_ok(kids[i]),
        aspect_of(repo.lookup(kids[i]), 0x05) is Delete || aspect_of(
            repo.lookup(kids[i]),
            0x0D,
        ) is NewFolder || aspect_of(repo.lookup(kids[i]), 0x04) is Rename,
{
    lemma_kids_resolve_step(repo, kids, 0, i);
}

proof fn lemma_kids_resolve_step(repo: StorageRepo, kids: Seq<Seq<u8>>, j: int, i: int)
    requires
        spec_kids_resolve(repo, kids, j),
        0 <= j <= i < kids.len(),
    ensures
        repo.lookup_ok(kids[i]),
        aspect_of(repo.lookup(kids[i]), 0x05) is Delete || aspect_of(
            repo.lookup(kids[i]),
            0x0D,
        ) is NewFolder || aspect_of(repo.lookup(kids[i]), 0x04) is Rename,
    decreases i - j,
{
    if j < i {
        lemma_kids_resolve_step(repo, kids, j + 1, i);
    }
}

/// Finds the best old file for a new file that no old entry matched by
/// name: an old file with the same content hash wins outright; failing
/// that, the old file whose rebuilt bytes differ from the new ones by
/// the smallest share, if that share stays within the allowed quarter.
/// `Ok` carries the index of the chosen entry; `Err(true)` says to start
/// a fresh chain.
pub fn process_leftover_file(
    store: &mut StorageRepo,
    left_over_commits: &Vec<OldSub>,
    data: &Vec<u8>,
) -> (r: Result<usize, bool>)
    ensures
        final(store).same_but_cache(old(store)),
        forall|x: Seq<u8>| #[trigger]
            final(store).lookup_ok(x) == old(store).lookup_ok(x) && (final(store).lookup_ok(x)
                ==> final(store).lookup(x) == old(store).lookup(x)),
        crate::storage::spec_lookups_monotone(*old(store), *final(store)),
        r matches Result::Ok(idx) ==> idx < left_over_commits@.len()
            && !left_over_commits@[idx as int].is_folder,
        r matches Result::Err(fine) ==> fine,
        // An old file with identical content wins outright: the first.
        (exists|k: int|
            0 <= k < left_over_commits@.len() && !(#[trigger] left_over_commits@[k]).is_folder
                && left_over_commits@[k].id@.subrange(1, 29) == spec_hash_cid(data@).subrange(
                1,
                29,
            )) ==> (r matches Result::Ok(idx) && left_over_commits@[idx as int].id@.subrange(
            1,
            29,
        ) == spec_hash_cid(data@).subrange(1, 29) && (forall|k: int|
            0 <= k < idx ==> ((#[trigger] left_over_commits@[k]).is_folder
                || left_over_commits@[k].id@.subrange(1, 29) != spec_hash_cid(data@).subrange(
                1,
                29,
            )))),
        // Nothing is handed back only when no identical old file exists.
        r is Err ==> forall|k: int|
            0 <= k < left_over_commits@.len() ==> ((#[trigger] left_over_commits@[k]).is_folder
                || left_over_commits@[k].id@.subrange(1, 29) != spec_hash_cid(data@).subrange(
                1,
                29,
            )),
        // The near-match rule: with no identical old file, bounded
        // sizes, and candidate chains that end within the record
        // budget, the smallest score under the quarter bound wins,
        // earliest on ties; a fresh chain starts only when none
        // qualifies.
        (data@.len() < 0x1000_0000 && spec_chains_short(*old(store), left_over_commits@) && (
        forall|k: int|
            0 <= k < left_over_commits@.len() ==> ((#[trigger] left_over_commits@[k]).is_folder
                || left_over_commits@[k].id@.subrange(1, 29) != spec_hash_cid(data@).subrange(
                1,
                29,
            )))) ==> ({
            let lo = left_over_commits@;
            &&& ((exists|k: int| spec_near_ok(*old(store), lo, k, data@)) ==> (r
                matches Result::Ok(idx) && spec_near_ok(*old(store), lo, idx as int, data@) && (
            forall|k: int|
                spec_near_ok(*old(store), lo, k, data@) ==> spec_near_rate(
                    *old(store),
                    lo[idx as int].id@,
                    data@,
                ) <= spec_near_rate(*old(store), lo[k].id@, data@)) && (forall|k: int|
                (0 <= k < idx && spec_near_ok(*old(store), lo, k, data@)) ==> spec_near_rate(
                    *old(store),
                    lo[k].id@,
                    data@,
                ) > spec_near_rate(*old(store), lo[idx as int].id@, data@))))
            &&& (r is Err ==> (forall|k: int| !spec_near_ok(*old(store), lo, k, data@)))
        }),
{
    let new_hash = crate::hashing::hash_data(data.as_slice());

    // First: an old file with identical content.
    let mut index: usize = 0;
    while index < left_over_commits.len()
        invariant
            index <= left_over_commits@.len(),
            new_hash@ == spec_hash_cid(data@),
            forall|k: int|
                0 <= k < index ==> ((#[trigger] left_over_commits@[k]).is_folder
                    || left_over_commits@[k].id@.subrange(1, 29) != spec_hash_cid(
                    data@,
                ).subrange(1, 29)),
        decreases left_over_commits@.len() - index,
    {
        let sub = &left_over_commits[index];
        if !sub.is_folder && sub.id.equal_224(&new_hash) {
            return Ok(index);
        }
        index = index + 1;
    }
    proof {
        assert forall|k: int| 0 <= k < left_over_commits@.len() implies ((
        #[trigger] left_over_commits@[k]).is_folder || left_over_commits@[k].id@.subrange(1, 29)
            != spec_hash_cid(data@).subrange(1, 29)) by {}
    }

    // Second: the closest old file by byte difference.
    let max_error_rate: u64 = if data.len() as u64 <= u64::MAX / MAX_DIFFERENCE_PERCENT {
        (data.len() as u64) * MAX_DIFFERENCE_PERCENT
    } else {
        u64::MAX
    };
    let ghost hyp = data@.len() < 0x1000_0000 && spec_chains_short(
        *old(store),
        left_over_commits@,
    );
    let ghost lo = left_over_commits@;

    let mut lowest: Option<(usize, u64)> = None;
    let mut index: usize = 0;
    while index < left_over_commits.len()
        invariant
            store.same_but_cache(old(store)),
            forall|x: Seq<u8>| #[trigger]
                store.lookup_ok(x) == old(store).lookup_ok(x) && (store.lookup_ok(x)
                    ==> store.lookup(x) == old(store).lookup(x)),
            store.commits@.len() >= old(store).commits@.len(),
            index <= left_over_commits@.len(),
            lo == left_over_commits@,
            hyp == (data@.len() < 0x1000_0000 && spec_chains_short(*old(store), lo)),
            max_error_rate as int == (if data@.len() as int <= u64::MAX as int / 25 {
                (data@.len() as int) * 25
            } else {
                u64::MAX as int
            }),
            lowest matches Option::Some((i, _e)) ==> i < left_over_commits@.len()
                && !left_over_commits@[i as int].is_folder,
            hyp && lowest is None ==> forall|k: int|
                0 <= k < index ==> !spec_near_ok(*old(store), lo, k, data@),
            lowest matches Option::Some((i, e)) ==> hyp ==> spec_near_ok(
                *old(store),
                lo,
                i as int,
                data@,
            ) && e as int == spec_near_rate(*old(store), lo[i as int].id@, data@) && (forall|
                k: int,
            |
                (0 <= k < index && spec_near_ok(*old(store), lo, k, data@)) ==> spec_near_rate(
                    *old(store),
                    lo[k].id@,
                    data@,
                ) >= e as int) && (forall|k: int|
                (0 <= k < i && spec_near_ok(*old(store), lo, k, data@)) ==> spec_near_rate(
                    *old(store),
                    lo[k].id@,
                    data@,
                ) > e as int),
        decreases left_over_commits@.len() - index,
    {
        let sub = &left_over_commits[index];
        if !sub.is_folder {
            let ghost pre = *store;
            let (_name, mut sub_file) = store.build_file(sub.id);
            proof {
                assert forall|x: Seq<u8>| #[trigger] store.lookup_ok(x) == old(store).lookup_ok(
                    x,
                ) && (store.lookup_ok(x) ==> store.lookup(x) == old(store).lookup(x)) by {
                    assert(pre.lookup_ok(x) == old(store).lookup_ok(x) && (pre.lookup_ok(x)
                        ==> pre.lookup(x) == old(store).lookup(x)));
                    assert(store.lookup_ok(x) == pre.lookup_ok(x) && (store.lookup_ok(x)
                        ==> store.lookup(x) == pre.lookup(x)));
                }
                if hyp {
                    // The candidate's chain at the walk's state is the
                    // chain at entry: lookups agree, and the chain ends
                    // within either record budget.
                    let ob = crate::storage::spec_chain_bound(*old(store));
                    let pb = crate::storage::spec_chain_bound(pre);
                    assert(pre.store@ == old(store).store@);
                    assert(pb >= ob);
                    crate::storage::lemma_chain_lookup_stable(pre, *old(store), sub.id@, pb);
                    assert(crate::storage::spec_chain(*old(store), sub.id@, ob).len() < ob);
                    crate::storage::lemma_chain_fuel_stable(*old(store), sub.id@, ob, pb);
                    assert(crate::storage::spec_chain(pre, sub.id@, pb)
                        == crate::storage::spec_chain(*old(store), sub.id@, ob));
                    assert(sub_file@ == spec_old_file_bytes(*old(store), sub.id@));
                }
            }
            let ghost obv = sub_file@;
            let sub_file_size = sub_file.len();

            // Bring the old bytes to the new length for comparison.
            if sub_file.len() > data.len() {
                sub_file.truncate(data.len());
                proof {
                    assert(sub_file@ =~= crate::delta::spec_resize(obv, data@.len() as int));
                }
            } else {
                while sub_file.len() < data.len()
                    invariant
                        obv.len() <= sub_file@.len() <= data@.len(),
                        sub_file@ == crate::delta::spec_resize(obv, sub_file@.len() as int),
                    decreases data@.len() - sub_file@.len(),
                {
                    sub_file.push(0u8);
                    proof {
                        assert(sub_file@ =~= crate::delta::spec_resize(
                            obv,
                            sub_file@.len() as int,
                        ));
                    }
                }
                proof {
                    assert(sub_file@ == crate::delta::spec_resize(obv, data@.len() as int));
                }
            }

            let ghost rate = spec_near_rate(*old(store), sub.id@, data@);
            let diff_opt = crate::codec::generate_vec_diff(&sub_file, data);
            if let Some(diff) = diff_opt {
                let size_gap: usize = if sub_file_size > data.len() {
                    sub_file_size - data.len()
                } else {
                    data.len() - sub_file_size
                };
                let dl = diff.len() as u64;
                let sg = size_gap as u64;
                proof {
                    if hyp {
                        assert(rate == 100 * (dl + sg));
                    }
                }
                if dl <= u64::MAX - sg {
                    let error_count: u64 = dl + sg;
                    if error_count <= u64::MAX / 100 {
                        let error_count = error_count * 100;
                        if error_count < max_error_rate {
                            proof {
                                if hyp {
                                    assert(error_count as int == rate);
                                    assert(rate < 25 * data@.len());
                                    assert(spec_near_ok(*old(store), lo, index as int, data@));
                                }
                            }
                            let replace = if let Some((_i, prev_rate)) = lowest {
                                error_count < prev_rate
                            } else {
                                true
                            };
                            if replace {
                                lowest = Some((index, error_count));
                            }
                        } else {
                            proof {
                                if hyp {
                                    assert(error_count as int == rate);
                                    assert(!(rate < 25 * data@.len()));
                                }
                            }
                        }
                    } else {
                        proof {
                            if hyp {
                                assert(rate >= 100 * (u64::MAX / 100 + 1));
                                assert(!spec_near_ok(*old(store), lo, index as int, data@));
                            }
                        }
                    }
                } else {
                    proof {
                        if hyp {
                            assert(rate >= 100 * sg);
                            assert(sg > u64::MAX - dl);
                            assert(!spec_near_ok(*old(store), lo, index as int, data@));
                        }
                    }
                }
            }
        } else {
            proof {
                if hyp {
                    assert(!spec_near_ok(*old(store), lo, index as int, data@));
                }
            }
        }
        index = index + 1;
    }

    if let Some((idx, _rate)) = lowest {
        return Ok(idx);
    }
    Err(true)
}

/// Scores the remaining old folders against a new folder's immediate
/// contents and picks the best: shared names of one kind score two,
/// matching file content adds one, content found under another name
/// scores one. `Ok` carries the index of the best old folder;
/// `Err(true)` says to start a fresh chain.
#[verifier::rlimit(100)]
#[verifier::spinoff_prover]
pub fn process_leftover_folder(
    store: &mut StorageRepo,
    left_over_commits: &Vec<OldSub>,
    entries: &Vec<WorkNode>,
) -> (r: Result<usize, bool>)
    ensures
        final(store).same_but_cache(old(store)),
        forall|x: Seq<u8>| #[trigger]
            final(store).lookup_ok(x) == old(store).lookup_ok(x) && (final(store).lookup_ok(x)
                ==> final(store).lookup(x) == old(store).lookup(x)),
        crate::storage::spec_lookups_monotone(*old(store), *final(store)),
        r matches Result::Ok(idx) ==> idx < left_over_commits@.len()
            && left_over_commits@[idx as int].is_folder,
        r matches Result::Err(fine) ==> fine,
        // With folder candidates whose children all resolve, one is
        // chosen.
        ((exists|k: int|
            0 <= k < left_over_commits@.len() && (#[trigger] left_over_commits@[k]).is_folder)
            && (forall|k: int|
            (0 <= k < left_over_commits@.len() && (#[trigger] left_over_commits@[k]).is_folder)
                ==> spec_subs_resolve(*old(store), left_over_commits@[k].id@))) ==> r is Ok,
        // A fresh start happens only without folder candidates, or when
        // one of them fails to resolve.
        r is Err ==> ((forall|k: int|
            0 <= k < left_over_commits@.len() ==> !(#[trigger] left_over_commits@[k]).is_folder)
            || (exists|k: int|
            0 <= k < left_over_commits@.len() && (#[trigger] left_over_commits@[k]).is_folder
                && !spec_subs_resolve(*old(store), left_over_commits@[k].id@))),
        // When every old folder candidate resolves, the one with the
        // greatest score against the new entries wins, earliest on
        // ties.
        r matches Result::Ok(idx) ==> ((forall|k: int|
            (0 <= k < left_over_commits@.len() && (#[trigger] left_over_commits@[k]).is_folder)
                ==> spec_subs_resolve(*old(store), left_over_commits@[k].id@)) ==> ({
            let lo = left_over_commits@;
            let items = spec_new_items(entries@, 0);
            &&& (forall|k: int|
                (0 <= k < lo.len() && (#[trigger] lo[k]).is_folder) ==> spec_folder_score(
                    *old(store),
                    lo[k].id@,
                    items,
                ) <= spec_folder_score(*old(store), lo[idx as int].id@, items))
            &&& (forall|k: int|
                (0 <= k < idx && (#[trigger] lo[k]).is_folder) ==> spec_folder_score(
                    *old(store),
                    lo[k].id@,
                    items,
                ) < spec_folder_score(*old(store), lo[idx as int].id@, items))
        })),
{
    let ghost lo = left_over_commits@;
    let ghost all_resolve = forall|k: int|
        (0 <= k < lo.len() && (#[trigger] lo[k]).is_folder) ==> spec_subs_resolve(
            *old(store),
            lo[k].id@,
        );
    // What the new folder contains, with file content hashes.
    let mut content_detail: Vec<OldSub> = Vec::new();
    let mut i: usize = 0;
    while i < entries.len()
        invariant
            i <= entries@.len(),
            spec_new_items(entries@, 0) == spec_sub_triples(content_detail@) + spec_new_items(
                entries@,
                i as int,
            ),
        decreases entries@.len() - i,
    {
        let ghost pre_cd = content_detail@;
        match &entries[i] {
            WorkNode::File { name, data } => {
                let hash = crate::hashing::hash_data(data.as_slice());
                content_detail.push(
                    OldSub { id: hash, name: clone_bytes(name), is_folder: false },
                );
                proof {
                    let head = seq![(spec_hash_cid(data@), name@, false)];
                    assert(spec_new_items(entries@, i as int) == head + spec_new_items(
                        entries@,
                        i + 1,
                    ));
                    assert(spec_sub_triples(content_detail@) =~= spec_sub_triples(pre_cd) + head);
                    assert((spec_sub_triples(pre_cd) + head) + spec_new_items(entries@, i + 1)
                        =~= spec_sub_triples(pre_cd) + (head + spec_new_items(entries@, i + 1)));
                }
            },
            WorkNode::Folder { name, .. } => {
                content_detail.push(
                    OldSub { id: U232::new(), name: clone_bytes(name), is_folder: true },
                );
                proof {
                    let head = seq![(crate::cid::zero_cid(), name@, true)];
                    assert(spec_new_items(entries@, i as int) == head + spec_new_items(
                        entries@,
                        i + 1,
                    ));
                    assert(spec_sub_triples(content_detail@) =~= spec_sub_triples(pre_cd) + head);
                    assert((spec_sub_triples(pre_cd) + head) + spec_new_items(entries@, i + 1)
                        =~= spec_sub_triples(pre_cd) + (head + spec_new_items(entries@, i + 1)));
                }
            },
        }
        i = i + 1;
    }
    let ghost items = spec_new_items(entries@, 0);
    proof {
        assert(spec_sub_triples(content_detail@) + spec_new_items(entries@, entries@.len() as int)
            =~= spec_sub_triples(content_detail@));
        assert(spec_sub_triples(content_detail@) == items);
    }

    // What each remaining old folder contains.
    let mut lefty_content_detail: Vec<(usize, Vec<OldSub>)> = Vec::new();
    let mut index: usize = 0;
    while index < left_over_commits.len()
        invariant
            store.same_but_cache(old(store)),
            forall|x: Seq<u8>| #[trigger]
                store.lookup_ok(x) == old(store).lookup_ok(x) && (store.lookup_ok(x)
                    ==> store.lookup(x) == old(store).lookup(x)),
            index <= left_over_commits@.len(),
            forall|k: int|
                0 <= k < lefty_content_detail@.len() ==> (#[trigger] lefty_content_detail@[k]).0
                    < left_over_commits@.len() && left_over_commits@[lefty_content_detail@[k].0 as int].is_folder,
            lefty_content_detail@.len() == 0 ==> forall|j: int|
                0 <= j < index ==> !(#[trigger] left_over_commits@[j]).is_folder,
            lo == left_over_commits@,
            all_resolve == (forall|k: int|
                (0 <= k < lo.len() && (#[trigger] lo[k]).is_folder) ==> spec_subs_resolve(
                    *old(store),
                    lo[k].id@,
                )),
            forall|j: int|
                0 <= j < lefty_content_detail@.len() ==> (#[trigger] lefty_content_detail@[j]).0
                    < index,
            forall|j1: int, j2: int|
                0 <= j1 < j2 < lefty_content_detail@.len() ==> (
                #[trigger] lefty_content_detail@[j1]).0 < (
                #[trigger] lefty_content_detail@[j2]).0,
            forall|k: int|
                (0 <= k < index && (#[trigger] lo[k]).is_folder) ==> exists|j: int|
                    0 <= j < lefty_content_detail@.len() && (
                    #[trigger] lefty_content_detail@[j]).0 == k,
            all_resolve ==> forall|j: int|
                0 <= j < lefty_content_detail@.len() ==> spec_sub_triples(
                    (#[trigger] lefty_content_detail@[j]).1@,
                ) == spec_resolved_subs(
                    *old(store),
                    aspect_of(
                        old(store).lookup(lo[lefty_content_detail@[j].0 as int].id@),
                        0x0F,
                    )->Folder_0,
                    0,
                ),
        decreases left_over_commits@.len() - index,
    {
        let sub = &left_over_commits[index];
        if sub.is_folder {
            let ghost pre = *store;
            let res = get_old_sub_info(store, sub.id);
            proof {
                assert forall|x: Seq<u8>| #[trigger] store.lookup_ok(x) == old(store).lookup_ok(
                    x,
                ) && (store.lookup_ok(x) ==> store.lookup(x) == old(store).lookup(x)) by {
                    assert(pre.lookup_ok(x) == old(store).lookup_ok(x) && (pre.lookup_ok(x)
                        ==> pre.lookup(x) == old(store).lookup(x)));
                    assert(store.lookup_ok(x) == pre.lookup_ok(x) && (store.lookup_ok(x)
                        ==> store.lookup(x) == pre.lookup(x)));
                }
            }
            if let Some(new_entry) = res {
                proof {
                    if all_resolve {
                        assert(spec_subs_resolve(*old(store), lo[index as int].id@));
                        lemma_subs_resolve_stable(pre, *old(store), sub.id@);
                        assert(spec_subs_resolve(pre, sub.id@));
                        let kids = aspect_of(pre.lookup(sub.id@), 0x0F)->Folder_0;
                        assert(pre.lookup_ok(sub.id@) && old(store).lookup_ok(sub.id@));
                        assert(pre.lookup(sub.id@) == old(store).lookup(sub.id@));
                        lemma_resolved_subs_stable(pre, *old(store), kids, 0);
                        assert(spec_sub_triples(new_entry@) == spec_resolved_subs(
                            *old(store),
                            aspect_of(old(store).lookup(lo[index as int].id@), 0x0F)->Folder_0,
                            0,
                        ));
                    }
                }
                let ghost pre_lefty = lefty_content_detail@;
                lefty_content_detail.push((index, new_entry));
                proof {
                    assert forall|k: int|
                        (0 <= k < index + 1 && (#[trigger] lo[k]).is_folder) implies exists|
                        j: int,
                    |
                        0 <= j < lefty_content_detail@.len() && (
                        #[trigger] lefty_content_detail@[j]).0 == k by {
                        if k == index as int {
                            assert(lefty_content_detail@[pre_lefty.len() as int].0 == index);
                        } else {
                            let j = choose|j: int|
                                0 <= j < pre_lefty.len() && (#[trigger] pre_lefty[j]).0 == k;
                            assert(lefty_content_detail@[j].0 == k);
                        }
                    }
                }
            } else {
                proof {
                    // The failed candidate is the witness.
                    lemma_subs_resolve_stable(pre, *old(store), sub.id@);
                    assert(!spec_subs_resolve(
                        *old(store),
                        left_over_commits@[index as int].id@,
                    ));
                }
                return Err(true);
            }
        }
        index = index + 1;
    }

    if lefty_content_detail.len() == 0 {
        return Err(true);
    }

    // Score each old folder against the new contents.
    let mut best_match: Option<(usize, i64)> = None;
    let mut li: usize = 0;
    while li < lefty_content_detail.len()
        invariant
            li <= lefty_content_detail@.len(),
            forall|k: int|
                0 <= k < lefty_content_detail@.len() ==> (#[trigger] lefty_content_detail@[k]).0
                    < left_over_commits@.len() && left_over_commits@[lefty_content_detail@[k].0 as int].is_folder,
            best_match matches Option::Some((i, _r)) ==> i < left_over_commits@.len()
                && left_over_commits@[i as int].is_folder,
            li > 0 ==> best_match is Some,
            lo == left_over_commits@,
            items == spec_sub_triples(content_detail@),
            all_resolve == (forall|k: int|
                (0 <= k < lo.len() && (#[trigger] lo[k]).is_folder) ==> spec_subs_resolve(
                    *old(store),
                    lo[k].id@,
                )),
            forall|j1: int, j2: int|
                0 <= j1 < j2 < lefty_content_detail@.len() ==> (
                #[trigger] lefty_content_detail@[j1]).0 < (
                #[trigger] lefty_content_detail@[j2]).0,
            all_resolve ==> forall|j: int|
                0 <= j < lefty_content_detail@.len() ==> spec_sub_triples(
                    (#[trigger] lefty_content_detail@[j]).1@,
                ) == spec_resolved_subs(
                    *old(store),
                    aspect_of(
                        old(store).lookup(lo[lefty_content_detail@[j].0 as int].id@),
                        0x0F,
                    )->Folder_0,
                    0,
                ),
            best_match matches Option::Some((bi, br)) ==> ((exists|j: int|
                0 <= j < li && (#[trigger] lefty_content_detail@[j]).0 == bi) && (all_resolve
                ==> (br as int == spec_folder_score(*old(store), lo[bi as int].id@, items) && (
            forall|j: int|
                0 <= j < li ==> spec_folder_score(
                    *old(store),
                    lo[(#[trigger] lefty_content_detail@[j]).0 as int].id@,
                    items,
                ) <= br as int) && (forall|j: int|
                (0 <= j < li && (#[trigger] lefty_content_detail@[j]).0 < bi)
                    ==> spec_folder_score(
                    *old(store),
                    lo[lefty_content_detail@[j].0 as int].id@,
                    items,
                ) < br as int)))),
        decreases lefty_content_detail@.len() - li,
    {
        let idx = lefty_content_detail[li].0;
        let mut sub_content: Vec<OldSub> = Vec::new();
        let m = lefty_content_detail[li].1.len();
        let mut t: usize = 0;
        while t < m
            invariant
                t <= m,
                m == lefty_content_detail@[li as int].1@.len(),
                li < lefty_content_detail@.len(),
                spec_sub_triples(sub_content@) == spec_sub_triples(
                    lefty_content_detail@[li as int].1@,
                ).take(t as int),
            decreases m - t,
        {
            let e = &lefty_content_detail[li].1[t];
            let cname = clone_bytes(&e.name);
            let ghost pre_sc = sub_content@;
            sub_content.push(OldSub { id: e.id, name: cname, is_folder: e.is_folder });
            proof {
                let full = spec_sub_triples(lefty_content_detail@[li as int].1@);
                assert(spec_sub_triples(pre_sc).len() == pre_sc.len());
                assert(full.take(t as int).len() == t as int);
                assert(pre_sc.len() == t as int);
                assert(sub_content@[t as int].name@ == e.name@);
                assert(spec_sub_triples(sub_content@)[t as int] == full[t as int]);
                assert forall|q: int| 0 <= q < t implies spec_sub_triples(sub_content@)[q]
                    == full[q] by {
                    assert(sub_content@[q] == pre_sc[q]);
                    assert(spec_sub_triples(pre_sc)[q] == full.take(t as int)[q]);
                }
                assert(spec_sub_triples(sub_content@) =~= full.take(t + 1));
            }
            t = t + 1;
        }
        let ghost subs0 = spec_sub_triples(sub_content@);
        proof {
            assert(spec_sub_triples(lefty_content_detail@[li as int].1@).take(m as int)
                =~= spec_sub_triples(lefty_content_detail@[li as int].1@));
        }

        let mut rate: i64 = 0;
        let mut ci: usize = 0;
        while ci < content_detail.len()
            invariant
                ci <= content_detail@.len(),
                -0x2000_0000 <= rate <= 0x2000_0000,
                items == spec_sub_triples(content_detail@),
                spec_fold_score(subs0, items, 0, 0) == spec_fold_score(
                    spec_sub_triples(sub_content@),
                    items,
                    rate as int,
                    ci as int,
                ),
            decreases content_detail@.len() - ci,
        {
            let item = &content_detail[ci];
            let ghost subs_t = spec_sub_triples(sub_content@);
            let ghost item_t = items[ci as int];
            let ghost rate0 = rate as int;
            proof {
                assert(item_t == (item.id@, item.name@, item.is_folder));
            }
            let mut found: Option<usize> = None;
            let mut si: usize = 0;
            while si < sub_content.len()
                invariant_except_break
                    si <= sub_content@.len(),
                    subs_t == spec_sub_triples(sub_content@),
                    item_t == (item.id@, item.name@, item.is_folder),
                    spec_scan_score(subs_t, item_t, Option::None, rate0, 0) == spec_scan_score(
                        subs_t,
                        item_t,
                        if found is Some {
                            Option::Some(found->0 as int)
                        } else {
                            Option::None
                        },
                        rate as int,
                        si as int,
                    ),
                invariant
                    -0x2000_0000 <= rate <= 0x2000_0000,
                    found matches Option::Some(f) ==> f < sub_content@.len(),
                ensures
                    subs_t == spec_sub_triples(sub_content@),
                    spec_scan_score(subs_t, item_t, Option::None, rate0, 0) == (
                    if found is Some {
                        Option::Some(found->0 as int)
                    } else {
                        Option::None
                    }, rate as int),
                decreases sub_content@.len() - si,
            {
                let ghost pre_found: Option<int> = if found is Some {
                    Option::Some(found->0 as int)
                } else {
                    Option::None
                };
                let ghost pre_rate = rate as int;
                let sub_item = &sub_content[si];
                proof {
                    assert(subs_t[si as int] == (sub_item.id@, sub_item.name@, sub_item.is_folder));
                }
                if bytes_eq(&sub_item.name, &item.name) {
                    if sub_item.is_folder && item.is_folder {
                        if rate <= 0x2000_0000 - 2 {
                            rate = rate + 2;
                        }
                        found = Some(si);
                    } else if !sub_item.is_folder && !item.is_folder {
                        if found.is_some() && rate >= -0x2000_0000 + 1 {
                            rate = rate - 1;
                        }
                        found = Some(si);
                        if rate <= 0x2000_0000 - 3 {
                            rate = rate + 2;
                            if sub_item.id.equal_224(&item.id) {
                                rate = rate + 1;
                            }
                        }
                    }
                    proof {
                        assert(spec_scan_score(subs_t, item_t, pre_found, pre_rate, si as int)
                            == (
                        if found is Some {
                            Option::Some(found->0 as int)
                        } else {
                            Option::None
                        }, rate as int));
                    }
                    break ;
                } else if !sub_item.is_folder && !item.is_folder && sub_item.id.equal_224(
                    &item.id,
                ) {
                    if rate <= 0x2000_0000 - 1 {
                        rate = rate + 1;
                    }
                    found = Some(si);
                }
                proof {
                    assert(spec_scan_score(subs_t, item_t, pre_found, pre_rate, si as int)
                        == spec_scan_score(
                        subs_t,
                        item_t,
                        if found is Some {
                            Option::Some(found->0 as int)
                        } else {
                            Option::None
                        },
                        rate as int,
                        si + 1,
                    ));
                }
                si = si + 1;
            }
            proof {
                assert(spec_fold_score(spec_sub_triples(sub_content@), items, rate0, ci as int)
                    == (if found is Some {
                    spec_fold_score(
                        spec_sub_triples(sub_content@).remove(found->0 as int),
                        items,
                        rate as int,
                        ci + 1,
                    )
                } else {
                    spec_fold_score(spec_sub_triples(sub_content@), items, rate as int, ci + 1)
                }));
            }
            if let Some(fi) = found {
                let ghost pre_sc = sub_content@;
                sub_content.remove(fi);
                proof {
                    lemma_triples_remove(pre_sc, fi as int);
                }
            }
            ci = ci + 1;
        }
        proof {
            assert(spec_fold_score(spec_sub_triples(sub_content@), items, rate as int,
                content_detail@.len() as int) == rate as int);
            assert(rate as int == spec_fold_score(subs0, items, 0, 0));
            if all_resolve {
                assert(subs0 == spec_resolved_subs(
                    *old(store),
                    aspect_of(old(store).lookup(lo[idx as int].id@), 0x0F)->Folder_0,
                    0,
                ));
                assert(rate as int == spec_folder_score(*old(store), lo[idx as int].id@, items));
            }
        }

        let replace = if let Some((_oi, old_rate)) = best_match {
            old_rate < rate
        } else {
            true
        };
        if replace {
            best_match = Some((idx, rate));
        } else {
            proof {
                if all_resolve {
                    let bi = (best_match->0).0;
                    let j0 = choose|j: int|
                        0 <= j < li && (#[trigger] lefty_content_detail@[j]).0 == bi;
                    assert(lefty_content_detail@[li as int].0 > lefty_content_detail@[j0].0);
                }
            }
        }
        li = li + 1;
    }

    if let Some((idx, _r)) = best_match {
        let ghost br = (best_match->0).1;
        proof {
            if all_resolve {
                assert(br as int == spec_folder_score(*old(store), lo[idx as int].id@, items));
                assert forall|k: int| (0 <= k < lo.len() && (#[trigger] lo[k]).is_folder) implies
                    spec_folder_score(*old(store), lo[k].id@, items) <= spec_folder_score(
                    *old(store),
                    lo[idx as int].id@,
                    items,
                ) by {
                    let j = choose|j: int|
                        0 <= j < lefty_content_detail@.len() && (
                        #[trigger] lefty_content_detail@[j]).0 == k;
                    assert(spec_folder_score(
                        *old(store),
                        lo[lefty_content_detail@[j].0 as int].id@,
                        items,
                    ) <= br as int);
                }
                assert forall|k: int| (0 <= k < idx && (#[trigger] lo[k]).is_folder) implies
                    spec_folder_score(*old(store), lo[k].id@, items) < spec_folder_score(
                    *old(store),
                    lo[idx as int].id@,
                    items,
                ) by {
                    let j = choose|j: int|
                        0 <= j < lefty_content_detail@.len() && (
                        #[trigger] lefty_content_detail@[j]).0 == k;
                    assert(spec_folder_score(
                        *old(store),
                        lo[lefty_content_detail@[j].0 as int].id@,
                        items,
                    ) < br as int);
                }
            }
        }
        return Ok(idx);
    }
    proof {
        // A nonempty candidate list always yields a best match.
        assert(false);
    }
    Err(true)
}

} // verus!
