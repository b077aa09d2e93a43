//! The storage repository: records in a folder image, a header, branch
//! heads, a commit cache, and the operations that create commits, walk
//! chains, advance branches, and rebuild working trees.

use vstd::prelude::*;
use crate::cid::U232;
use crate::record::{AspectV, CommitInfo, Head, RepoFile, RepoFileType, WritingStates, aspect_of,
    clone_bytes, spec_get_type};
use crate::record_bytes::{decode_repo_file, spec_decode_record, spec_record_bytes,
    spec_get_type_edit_psize_ok};
use crate::store::{RepoStore, bytes_eq, spec_find};
use crate::worktree::WorkNode;
use crate::hashing::spec_hash_cid;

verus! {

broadcast use crate::cid::lemma_u232_view_len, vstd::std_specs::vec::group_vec_axioms;

/// The ASCII code of one hex digit, upper case.
pub open spec fn spec_hex_digit_byte(v: u8) -> u8 {
    if v < 10 {
        (0x30 + v) as u8
    } else {
        (0x37 + v) as u8
    }
}

/// The hex file name of an identifier: two ASCII digits per byte.
pub open spec fn spec_hex_name(s: Seq<u8>) -> Seq<u8> {
    Seq::new(
        2 * s.len(),
        |i: int| if i % 2 == 0 {
            spec_hex_digit_byte(s[i / 2] / 16)
        } else {
            spec_hex_digit_byte(s[i / 2] % 16)
        },
    )
}

/// Writes an identifier's hex file name.
pub fn hex_name_of(id: &U232) -> (r: Vec<u8>)
    ensures
        r@ == spec_hex_name(id@),
{
    let bytes = id.to_be_bytes();
    let mut out: Vec<u8> = Vec::new();
    let mut i: usize = 0;
    while i < bytes.len()
        invariant
            bytes@ == id@,
            i <= bytes@.len(),
            out@.len() == 2 * i,
            forall|j: int| 0 <= j < 2 * i ==> out@[j] == spec_hex_name(id@)[j],
        decreases bytes@.len() - i,
    {
        let b = bytes[i];
        let hi = b / 16;
        let lo = b % 16;
        out.push(if hi < 10 {
            0x30 + hi
        } else {
            0x37 + hi
        });
        out.push(if lo < 10 {
            0x30 + lo
        } else {
            0x37 + lo
        });
        i = i + 1;
    }
    proof {
        assert(out@ =~= spec_hex_name(id@));
    }
    out
}

/// Hex file names are injective: distinct byte strings get distinct
/// names.
pub proof fn lemma_hex_name_injective(a: Seq<u8>, b: Seq<u8>)
    requires
        spec_hex_name(a) == spec_hex_name(b),
    ensures
        a == b,
{
    assert(spec_hex_name(a).len() == 2 * a.len());
    assert(spec_hex_name(b).len() == 2 * b.len());
    assert(a.len() == b.len());
    assert forall|i: int| 0 <= i < a.len() implies a[i] == b[i] by {
        assert((2 * i) % 2 == 0 && (2 * i) / 2 == i);
        assert((2 * i + 1) % 2 == 1 && (2 * i + 1) / 2 == i);
        assert(spec_hex_name(a)[2 * i] == spec_hex_digit_byte(a[i] / 16));
        assert(spec_hex_name(b)[2 * i] == spec_hex_digit_byte(b[i] / 16));
        assert(spec_hex_name(a)[2 * i + 1] == spec_hex_digit_byte(a[i] % 16));
        assert(spec_hex_name(b)[2 * i + 1] == spec_hex_digit_byte(b[i] % 16));
        assert(a[i] / 16 == b[i] / 16);
        assert(a[i] % 16 == b[i] % 16);
        assert(a[i] == 16 * (a[i] / 16) + a[i] % 16) by {
            vstd::arithmetic::div_mod::lemma_fundamental_div_mod(a[i] as int, 16);
        }
        assert(b[i] == 16 * (b[i] / 16) + b[i] % 16) by {
            vstd::arithmetic::div_mod::lemma_fundamental_div_mod(b[i] as int, 16);
        }
    }
    assert(a =~= b);
}

/// The fixed file name of the repository header record.
pub open spec fn spec_header_name() -> Seq<u8> {
    seq![0x48u8, 0x45u8, 0x41u8, 0x44u8, 0x45u8, 0x52u8]
}

/// Writes the header record's file name.
pub fn header_file_name() -> (r: Vec<u8>)
    ensures
        r@ == spec_header_name(),
{
    let mut out: Vec<u8> = Vec::new();
    out.push(0x48);
    out.push(0x45);
    out.push(0x41);
    out.push(0x44);
    out.push(0x45);
    out.push(0x52);
    proof {
        assert(out@ =~= spec_header_name());
    }
    out
}

/// No record the first repository holds is missing from the second.
pub open spec fn spec_lookups_monotone(r1: StorageRepo, r2: StorageRepo) -> bool {
    forall|x: Seq<u8>| r1.lookup_ok(x) ==> #[trigger] r2.lookup_ok(x)
}

/// Monotone lookups chain.
pub proof fn lemma_monotone_trans(r1: StorageRepo, r2: StorageRepo, r3: StorageRepo)
    requires
        spec_lookups_monotone(r1, r2),
        spec_lookups_monotone(r2, r3),
    ensures
        spec_lookups_monotone(r1, r3),
{
    assert forall|x: Seq<u8>| r1.lookup_ok(x) implies #[trigger] r3.lookup_ok(x) by {
        assert(r2.lookup_ok(x));
    }
}

/// The first cached record under an identifier, if any.
pub open spec fn spec_cache_find(c: Seq<(U232, RepoFile)>, id: Seq<u8>) -> Option<RepoFile>
    decreases c.len(),
{
    if c.len() == 0 {
        Option::None
    } else if c[0].0@ == id {
        Option::Some(c[0].1)
    } else {
        spec_cache_find(c.drop_first(), id)
    }
}

/// A repository: its folder image, header record, loaded branch heads,
/// and the cache of commit records read so far.
pub struct StorageRepo {
    /// The path of the repository folder, kept for the caller; the logic
    /// itself works on the image below.
    pub folder: Vec<u8>,
    /// The decoded header record.
    pub header: RepoFile,
    /// The decoded branch head records, in header order.
    pub branches: Vec<RepoFile>,
    /// Commit records read so far, keyed by identifier.
    pub commits: Vec<(U232, RepoFile)>,
    /// The folder image all records are read from and written to.
    pub store: RepoStore,
}

impl StorageRepo {
    /// The cached record under an identifier.
    pub open spec fn cached(&self, id: Seq<u8>) -> Option<RepoFile> {
        spec_cache_find(self.commits@, id)
    }

    /// The record bytes the folder image holds for an identifier.
    pub open spec fn stored_bytes(&self, id: Seq<u8>) -> Option<Seq<u8>> {
        self.store.spec_read(spec_hex_name(id))
    }

    /// Whether a commit lookup for the identifier succeeds.
    pub open spec fn lookup_ok(&self, id: Seq<u8>) -> bool {
        ||| self.cached(id) is Some
        ||| (self.stored_bytes(id) matches Option::Some(b) && b.len() >= 2 && b.len() + 70
            < usize::MAX)
    }

    /// The record a commit lookup for the identifier yields.
    pub open spec fn lookup(&self, id: Seq<u8>) -> crate::record::RepoFileV {
        if self.cached(id) is Some {
            self.cached(id)->0@
        } else {
            spec_decode_record(self.stored_bytes(id)->0, spec_hex_name(id))
        }
    }

    /// Everything but the commit cache is unchanged.
    pub open spec fn same_but_cache(&self, other: &StorageRepo) -> bool {
        &&& self.folder@ == other.folder@
        &&& self.header@ == other.header@
        &&& self.branches.deep_view() == other.branches.deep_view()
        &&& self.store@ == other.store@
        &&& self.store.writes@ == other.store.writes@
    }

    /// Returns the commit record for the identifier: from the cache, or
    /// read and decoded from the folder image and cached. Lookups of
    /// other identifiers are unaffected.
    pub fn get_commit(&mut self, id: U232) -> (r: Option<RepoFile>)
        ensures
            r is Some <==> old(self).lookup_ok(id@),
            r is Some ==> r->0@ == old(self).lookup(id@),
            final(self).same_but_cache(old(self)),
            forall|x: Seq<u8>| #[trigger]
                final(self).lookup_ok(x) == old(self).lookup_ok(x) && (final(self).lookup_ok(x)
                    ==> final(self).lookup(x) == old(self).lookup(x)),
            // A found record is cached, so later calls answer from the
            // cache and do not observe later changes to the stored bytes.
            r is Some ==> final(self).cached(id@) is Some && final(self).cached(id@)->0@ == old(
                self,
            ).lookup(id@),
            spec_lookups_monotone(*old(self), *final(self)),
            final(self).commits@.len() >= old(self).commits@.len(),
    {
        let cached = self.cache_get(&id);
        if let Some(c) = cached {
            return Some(c);
        }
        let name = hex_name_of(&id);
        let content = self.store.read(&name);
        if let Some(data) = content {
            if data.len() >= 2 && data.len() < usize::MAX - 70 {
                let commit = decode_repo_file(data, name);
                let ghost pre = self.commits@;
                let rc = commit.clone();
                self.commits.push((id, commit));
                proof {
                    assert(self.commits@ =~= pre.push((id, self.commits@.last().1)));
                    lemma_cache_find_push(pre, id, self.commits@.last().1);
                }
                return Some(rc);
            }
        }
        None
    }

    /// The commit record for an identifier, read without touching the
    /// cache: what a lookup would yield.
    pub fn peek_commit(&self, id: &U232) -> (r: Option<RepoFile>)
        ensures
            r is Some <==> self.lookup_ok(id@),
            r is Some ==> r->0@ == self.lookup(id@),
    {
        let cached = self.cache_get(id);
        if let Some(c) = cached {
            return Some(c);
        }
        let name = hex_name_of(id);
        let content = self.store.read(&name);
        if let Some(data) = content {
            if data.len() >= 2 && data.len() < usize::MAX - 70 {
                let commit = decode_repo_file(data, name);
                return Some(commit);
            }
        }
        None
    }

    /// The cached record for an identifier, copied out.
    fn cache_get(&self, id: &U232) -> (r: Option<RepoFile>)
        ensures
            r is Some <==> self.cached(id@) is Some,
            r is Some ==> r->0@ == self.cached(id@)->0@,
    {
        let mut i: usize = 0;
        let n = self.commits.len();
        proof {
            assert(self.commits@.subrange(0, n as int) =~= self.commits@);
        }
        while i < n
            invariant
                i <= n,
                n == self.commits@.len(),
                spec_cache_find(self.commits@, id@) == spec_cache_find(
                    self.commits@.subrange(i as int, n as int),
                    id@,
                ),
            decreases n - i,
        {
            proof {
                assert(self.commits@.subrange(i as int, n as int)[0] == self.commits@[i as int]);
            }
            if self.commits[i].0.eq(id) {
                return Some(self.commits[i].1.clone());
            }
            proof {
                assert(self.commits@.subrange(i as int, n as int).drop_first()
                    =~= self.commits@.subrange(i + 1, n as int));
            }
            i = i + 1;
        }
        proof {
            assert(self.commits@.subrange(n as int, n as int)
                =~= Seq::<(U232, RepoFile)>::empty());
        }
        None
    }
}

/// Appending a cache entry serves lookups of its identifier only when no
/// earlier entry holds it, and leaves other lookups alone.
proof fn lemma_cache_find_push(c: Seq<(U232, RepoFile)>, id: U232, f: RepoFile)
    requires
        spec_cache_find(c, id@) is None,
    ensures
        spec_cache_find(c.push((id, f)), id@) == Option::Some(f),
        forall|other: Seq<u8>|
            other != id@ ==> #[trigger] spec_cache_find(c.push((id, f)), other) == spec_cache_find(
                c,
                other,
            ),
    decreases c.len(),
{
    let p = c.push((id, f));
    if c.len() == 0 {
        assert(p[0] == (id, f));
        assert(p[0].0@ == id@ && p[0].1 == f);
        assert forall|other: Seq<u8>| other != id@ implies #[trigger] spec_cache_find(p, other)
            == spec_cache_find(c, other) by {
            assert(spec_cache_find(p, other) == spec_cache_find(p.drop_first(), other));
            assert(p.drop_first() =~= Seq::<(U232, RepoFile)>::empty());
        }
    } else {
        assert(p[0] == c[0]);
        assert(p.drop_first() =~= c.drop_first().push((id, f)));
        if c[0].0@ == id@ {
            assert(false);
        }
        lemma_cache_find_push(c.drop_first(), id, f);
        assert(spec_cache_find(p, id@) == spec_cache_find(p.drop_first(), id@));
        assert forall|other: Seq<u8>| other != id@ implies #[trigger] spec_cache_find(p, other)
            == spec_cache_find(c, other) by {
            if c[0].0@ != other {
                assert(spec_cache_find(p, other) == spec_cache_find(p.drop_first(), other));
                assert(spec_cache_find(c, other) == spec_cache_find(c.drop_first(), other));
            }
        }
    }
}

impl RepoFile {
    /// Writes this record into the folder image under its name. Nothing
    /// happens when the encoded bytes already stand there; a file that a
    /// third party changed since it was last read is left alone and the
    /// encoded bytes are handed back as a conflict.
    pub fn write_file_back(&mut self, store: &mut RepoStore) -> (r: WritingStates)
        requires
            spec_get_type_edit_psize_ok(old(self)@),
        ensures
            ({
                let enc = spec_record_bytes(old(self)@);
                let newh = spec_hash_cid(enc);
                let disk = old(store).spec_read(old(self).name@);
                &&& (match r {
                    WritingStates::NotNecessary => (newh == old(self).repo_file_hash@ || (
                    disk matches Option::Some(fb) && spec_hash_cid(fb) == newh)),
                    WritingStates::Conflict(bytes) => bytes@ == enc && (disk
                        matches Option::Some(fb) && spec_hash_cid(fb) != newh && spec_hash_cid(fb)
                        != old(self).repo_file_hash@),
                    WritingStates::Written => newh != old(self).repo_file_hash@ && (disk is None
                        || spec_hash_cid(disk->0) == old(self).repo_file_hash@),
                })
                &&& (r is Written ==> {
                    &&& final(store).spec_read(old(self).name@) == Option::Some(enc)
                    &&& (forall|o: Seq<u8>|
                        o != old(self).name@ ==> #[trigger] final(store).spec_read(o) == old(
                            store,
                        ).spec_read(o))
                    &&& final(store).writes@.len() == old(store).writes@.len() + 1
                    &&& final(store).writes@.last().0@ == old(self).name@
                    &&& final(store).writes@.last().1@ == enc
                    &&& (forall|j: int|
                        0 <= j < old(store).writes@.len() ==> #[trigger] final(store).writes@[j]
                            == old(store).writes@[j])
                    &&& final(self).repo_file_hash@ == newh
                })
                &&& (!(r is Written) ==> final(store)@ == old(store)@ && final(store).writes@
                    == old(store).writes@)
                &&& (r is Conflict ==> *final(self) == *old(self))
                &&& final(self).version == old(self).version
                &&& final(self).name@ == old(self).name@
                &&& final(self).content.deep_view() == old(self).content.deep_view()
                &&& final(self).previous_commit == old(self).previous_commit
                &&& (r is NotNecessary ==> (final(self).repo_file_hash@ == newh || final(self).repo_file_hash == old(self).repo_file_hash))
            }),
    {
        let data = self.to_bytes();
        let new_hash = crate::hashing::hash_data(data.as_slice());
        if self.repo_file_hash.eq(&new_hash) {
            return WritingStates::NotNecessary;
        }
        if let Some(file_data) = store.read(&self.name) {
            let file_hash = crate::hashing::hash_data(file_data.as_slice());
            if new_hash.eq(&file_hash) {
                // Already written, just not noted yet.
                self.repo_file_hash = new_hash;
                return WritingStates::NotNecessary;
            }
            if !file_hash.eq(&self.repo_file_hash) {
                // The file moved under us since the last read.
                return WritingStates::Conflict(data);
            }
        }
        let name = clone_bytes(&self.name);
        store.write(name, data);
        self.repo_file_hash = new_hash;
        WritingStates::Written
    }

    /// Reloads this record from the folder image when the bytes there no
    /// longer carry the stored hash; a stashed edit payload is parsed
    /// again if a pointer size can be found. Reports whether anything
    /// was replaced.
    #[verifier::rlimit(100)]
    #[verifier::spinoff_prover]
    pub fn reread_file(&mut self, store: &RepoStore) -> (r: bool)
        ensures
            // Replaced exactly when the stored bytes hash differently
            // and are long enough to decode.
            r <==> ({
                let found = store.spec_read(old(self).name@);
                found is Some && spec_hash_cid(found->0) != old(self).repo_file_hash@
                    && found->0.len() >= 2 && found->0.len() + 70 < usize::MAX
            }),
            !r ==> *final(self) == *old(self),
            r ==> ({
                let d = store.spec_read(old(self).name@)->0;
                let dec = spec_decode_record(d, old(self).name@);
                let ps_opt: Option<int> = if aspect_of(dec, 0x08) is Resize {
                    Option::Some(crate::record_bytes::spec_psize_of_len(
                        aspect_of(dec, 0x08)->Resize_0,
                    ))
                } else if spec_get_type(old(self)@.content, 0x02) is Edit {
                    Option::Some(spec_get_type(old(self)@.content, 0x02)->Edit_1)
                } else {
                    Option::None
                };
                &&& final(self).version == dec.version
                &&& final(self).name@ == old(self).name@
                &&& final(self).previous_commit@ == dec.previous_commit
                &&& final(self).repo_file_hash@ == dec.repo_file_hash
                &&& final(self)@.content == (if ps_opt is Some && 0 <= ps_opt->0 <= 8
                    && dec.content.len() > 0 && dec.content.last() is EditNotProcessed
                    && dec.content.last()->EditNotProcessed_0.len() + 17 < usize::MAX {
                    dec.content.update(
                        dec.content.len() - 1,
                        AspectV::Edit(
                            crate::record_bytes::spec_parse_ins(
                                dec.content.last()->EditNotProcessed_0,
                                ps_opt->0,
                            ),
                            ps_opt->0,
                        ),
                    )
                } else {
                    dec.content
                })
            }),
    {
        let data_opt = store.read(&self.name);
        if let Some(data) = data_opt {
            let hash = crate::hashing::hash_data(data.as_slice());
            if !hash.eq(&self.repo_file_hash) {
                if data.len() < 2 || data.len() >= usize::MAX - 70 {
                    return false;
                }
                let ghost dv = data@;
                let name = clone_bytes(&self.name);
                let mut other = decode_repo_file(data, name);
                let ghost dec = spec_decode_record(dv, old(self).name@);
                proof {
                    assert(other@ == dec);
                }
                // Parse the edit payload if a pointer size is at hand.
                let psize_res = other.get_pointer_size();
                let mut psize_opt: Option<usize> = None;
                if let Ok(psize) = psize_res {
                    psize_opt = Some(psize);
                } else if let RepoFileType::Edit(_ins, pointer_size) = self.get_type(0x02) {
                    psize_opt = Some(*pointer_size);
                }
                proof {
                    crate::record_bytes::lemma_decoded_no_edit_content(dec.content);
                }
                if let Some(psize) = psize_opt {
                    if psize <= 8 && other.content.len() > 0 {
                        let mut fits = true;
                        let last_idx = other.content.len() - 1;
                        if let RepoFileType::EditNotProcessed(raw) = &other.content[last_idx] {
                            if raw.len() >= usize::MAX - 17 {
                                fits = false;
                            }
                        } else {
                            fits = false;
                        }
                        if fits {
                            other.parse_edit_instructions(psize);
                        }
                    }
                }
                self.version = other.version;
                self.content = other.content;
                self.previous_commit = other.previous_commit;
                self.repo_file_hash = other.repo_file_hash;
                return true;
            }
        }
        false
    }
}

impl StorageRepo {
    /// Persists a record under its identifier and caches it. The record's
    /// name must already be the identifier's hex form.
    pub fn insert_commit(&mut self, commit: RepoFile, id: U232) -> (r: U232)
        requires
            commit.name@ == spec_hex_name(id@),
            spec_get_type_edit_psize_ok(commit@),
        ensures
            r == id,
            final(self).folder@ == old(self).folder@,
            final(self).header@ == old(self).header@,
            final(self).branches.deep_view() == old(self).branches.deep_view(),
            final(self).lookup_ok(id@),
            final(self).lookup(id@).content == commit@.content,
            final(self).lookup(id@).previous_commit == commit@.previous_commit,
            final(self).lookup(id@).version == commit@.version,
            final(self).lookup(id@).name == commit@.name,
            forall|o: Seq<u8>|
                o != commit.name@ ==> #[trigger] final(self).store.spec_read(o) == old(
                    self,
                ).store.spec_read(o),
            // Every other identifier's lookup is untouched, and no
            // record ever vanishes.
            forall|x: Seq<u8>|
                x != id@ ==> #[trigger] final(self).lookup_ok(x) == old(self).lookup_ok(x) && (
                final(self).lookup_ok(x) ==> final(self).lookup(x) == old(self).lookup(x)),
            forall|x: Seq<u8>| old(self).lookup_ok(x) ==> #[trigger] final(self).lookup_ok(x),
            spec_lookups_monotone(*old(self), *final(self)),
            // Persistence: a changed record whose file nobody else moved
            // ends up stored, as the encoded bytes or an equal-hash image.
            (spec_hash_cid(spec_record_bytes(commit@)) != commit.repo_file_hash@ && (old(
                self,
            ).store.spec_read(commit.name@) matches Option::Some(fb) ==> spec_hash_cid(fb)
                == commit.repo_file_hash@ || spec_hash_cid(fb) == spec_hash_cid(
                spec_record_bytes(commit@),
            ))) ==> ({
                let stored = final(self).store.spec_read(commit.name@);
                stored is Some && (stored->0 == spec_record_bytes(commit@) || spec_hash_cid(
                    stored->0,
                ) == spec_hash_cid(spec_record_bytes(commit@)))
            }),
    {
        let ghost commit0 = commit;
        let mut commit = commit;
        let res = commit.write_file_back(&mut self.store);
        let ghost mid = *self;
        proof {
            let enc = spec_record_bytes(commit0@);
            let newh = spec_hash_cid(enc);
            let disk = old(self).store.spec_read(commit0.name@);
            if newh != commit0.repo_file_hash@ && (disk matches Option::Some(fb)
                ==> spec_hash_cid(fb) == commit0.repo_file_hash@ || spec_hash_cid(fb) == newh) {
                match res {
                    WritingStates::Written => {
                        assert(self.store.spec_read(commit0.name@) == Option::Some(enc));
                    },
                    WritingStates::NotNecessary => {
                        assert(disk matches Option::Some(fb) && spec_hash_cid(fb) == newh);
                        assert(self.store.spec_read(commit0.name@) == disk);
                    },
                    WritingStates::Conflict(_b) => {
                        assert(false);
                    },
                }
            }
        }
        self.cache_put(id, commit);
        proof {
            assert forall|o: Seq<u8>| o != commit0.name@ implies #[trigger] self.store.spec_read(
                o,
            ) == old(self).store.spec_read(o) by {
                assert(self.store@ == mid.store@);
                if res is Written {
                    assert(mid.store.spec_read(o) == old(self).store.spec_read(o));
                } else {
                    assert(mid.store@ == old(self).store@);
                }
            }
            assert(self.store.spec_read(commit0.name@) == mid.store.spec_read(commit0.name@));
            assert forall|x: Seq<u8>| x != id@ implies #[trigger] self.lookup_ok(x) == old(
                self,
            ).lookup_ok(x) && (self.lookup_ok(x) ==> self.lookup(x) == old(self).lookup(x)) by {
                assert(self.cached(x) == mid.cached(x));
                if spec_hex_name(x) == spec_hex_name(id@) {
                    lemma_hex_name_injective(x, id@);
                }
                assert(spec_hex_name(x) != commit0.name@);
                assert(self.store.spec_read(spec_hex_name(x)) == old(self).store.spec_read(
                    spec_hex_name(x),
                ));
            }
        }
        id
    }

    /// Replaces the cache entry for an identifier, or adds one.
    fn cache_put(&mut self, id: U232, commit: RepoFile)
        ensures
            final(self).folder@ == old(self).folder@,
            final(self).header@ == old(self).header@,
            final(self).branches.deep_view() == old(self).branches.deep_view(),
            final(self).store@ == old(self).store@,
            final(self).store.writes@ == old(self).store.writes@,
            final(self).cached(id@) is Some,
            final(self).cached(id@)->0 == commit,
            forall|x: Seq<u8>|
                x != id@ ==> #[trigger] final(self).cached(x) == old(self).cached(x),
    {
        let mut i: usize = 0;
        let n = self.commits.len();
        let mut found: Option<usize> = None;
        while i < n
            invariant_except_break
                found is None,
            invariant
                i <= n,
                n == self.commits@.len(),
                forall|j: int| 0 <= j < i ==> (#[trigger] self.commits@[j]).0@ != id@,
            ensures
                found is Some ==> found->0 < n && self.commits@[found->0 as int].0@ == id@
                    && forall|j: int|
                    0 <= j < found->0 ==> (#[trigger] self.commits@[j]).0@ != id@,
                found is None ==> forall|j: int|
                    0 <= j < self.commits@.len() ==> (#[trigger] self.commits@[j]).0@ != id@,
            decreases n - i,
        {
            if self.commits[i].0.eq(&id) {
                found = Some(i);
                break ;
            }
            i = i + 1;
        }
        let ghost pre = self.commits@;
        if let Some(idx) = found {
            self.commits.set(idx, (id, commit));
            proof {
                lemma_cache_find_prefix(self.commits@, id@, idx as int);
                lemma_cache_find_update_other(pre, idx as int, id, commit);
                assert(self.commits@ =~= pre.update(idx as int, (id, commit)));
            }
        } else {
            self.commits.push((id, commit));
            proof {
                lemma_cache_find_prefix(self.commits@, id@, pre.len() as int);
                lemma_cache_find_none(pre, id@);
                lemma_cache_find_push(pre, id, commit);
                assert(self.commits@ =~= pre.push((id, commit)));
            }
        }
    }

    /// A collision-free identifier for a delete commit: the collision
    /// byte climbs until the identifier is unused or names an existing
    /// delete record, which deletes may share; after 255 tries the last
    /// candidate is taken as is.
    #[verifier::rlimit(100)]
    #[verifier::spinoff_prover]
    pub fn get_free_commit_id_for_delete(&mut self, hash: &U232) -> (r: U232)
        ensures
            crate::cid::spec_equal_224(r, *hash),
            r@.len() == 29,
            final(self).same_but_cache(old(self)),
            forall|x: Seq<u8>| #[trigger]
                final(self).lookup_ok(x) == old(self).lookup_ok(x) && (final(self).lookup_ok(x)
                    ==> final(self).lookup(x) == old(self).lookup(x)),
            !final(self).lookup_ok(r@) || aspect_of(final(self).lookup(r@), 0x05) is Delete
                || r@[0] == 255,
            spec_lookups_monotone(*old(self), *final(self)),
            // Minimality: the input itself when free or already a
            // delete, else the lowest collision byte in 1, 2, ... whose
            // identifier is unused or names a reusable delete.
            (!old(self).lookup_ok(hash@) || aspect_of(old(self).lookup(hash@), 0x05) is Delete)
                ==> r == *hash,
            (old(self).lookup_ok(hash@) && !(aspect_of(old(self).lookup(hash@), 0x05) is Delete)
                && r@[0] != 255) ==> (r@ == hash@.update(0, r@[0]) && r@[0] >= 1 && (!old(
                self,
            ).lookup_ok(r@) || aspect_of(old(self).lookup(r@), 0x05) is Delete) && (forall|b: u8|
                1 <= b < r@[0] ==> old(self).lookup_ok(#[trigger] hash@.update(0, b)) && !(
                aspect_of(old(self).lookup(hash@.update(0, b)), 0x05) is Delete))),
    {
        let mut h = *hash;
        let mut party_byte: u8 = 0;
        loop
            invariant
                h@.len() == 29,
                hash@.len() == 29,
                h@.subrange(1, 29) == hash@.subrange(1, 29),
                party_byte == 0 ==> h == *hash,
                party_byte > 0 ==> h@ == hash@.update(0, party_byte),
                party_byte > 0 ==> old(self).lookup_ok(hash@) && !(aspect_of(
                    old(self).lookup(hash@),
                    0x05,
                ) is Delete),
                forall|b: u8|
                    1 <= b < party_byte ==> old(self).lookup_ok(#[trigger] hash@.update(0, b))
                        && !(aspect_of(old(self).lookup(hash@.update(0, b)), 0x05) is Delete),
                self.same_but_cache(old(self)),
                forall|x: Seq<u8>| #[trigger]
                    self.lookup_ok(x) == old(self).lookup_ok(x) && (self.lookup_ok(x)
                        ==> self.lookup(x) == old(self).lookup(x)),
            decreases 255 - party_byte,
        {
            let ghost pre = *self;
            let conflict = self.get_commit(h);
            proof {
                assert forall|x: Seq<u8>| #[trigger] self.lookup_ok(x) == old(self).lookup_ok(x)
                    && (self.lookup_ok(x) ==> self.lookup(x) == old(self).lookup(x)) by {
                    assert(pre.lookup_ok(x) == old(self).lookup_ok(x) && (pre.lookup_ok(x)
                        ==> pre.lookup(x) == old(self).lookup(x)));
                    assert(self.lookup_ok(x) == pre.lookup_ok(x) && (self.lookup_ok(x)
                        ==> self.lookup(x) == pre.lookup(x)));
                }
            }
            if let Some(c) = conflict {
                if let RepoFileType::Delete = c.get_type(0x05) {
                    // Deletes may share identifiers.
                    proof {
                        if party_byte == 0 {
                            assert(h == *hash);
                        }
                    }
                    return h;
                }
                if party_byte == 255 {
                    return h;
                }
                party_byte = party_byte + 1;
                h.set_inequailty_byte(party_byte);
                proof {
                    assert(h@.subrange(1, 29) =~= hash@.subrange(1, 29));
                    assert(h@ =~= hash@.update(0, party_byte));
                }
            } else {
                proof {
                    if party_byte == 0 {
                        assert(h == *hash);
                    }
                }
                return h;
            }
        }
    }

    /// A collision-free identifier for a fresh commit: the collision byte
    /// climbs until the identifier is unused; after 255 tries the last
    /// candidate is taken as is.
    #[verifier::rlimit(100)]
    #[verifier::spinoff_prover]
    pub fn get_free_commit_id(&mut self, hash: &U232) -> (r: U232)
        ensures
            crate::cid::spec_equal_224(r, *hash),
            r@.len() == 29,
            final(self).same_but_cache(old(self)),
            forall|x: Seq<u8>| #[trigger]
                final(self).lookup_ok(x) == old(self).lookup_ok(x) && (final(self).lookup_ok(x)
                    ==> final(self).lookup(x) == old(self).lookup(x)),
            !final(self).lookup_ok(r@) || r@[0] == 255,
            spec_lookups_monotone(*old(self), *final(self)),
            // Minimality: the input itself when free, else the lowest
            // collision byte in 1, 2, ... under which nothing exists.
            !old(self).lookup_ok(hash@) ==> r == *hash,
            (old(self).lookup_ok(hash@) && r@[0] != 255) ==> (r@ == hash@.update(0, r@[0])
                && r@[0] >= 1 && !old(self).lookup_ok(r@) && (forall|b: u8|
                1 <= b < r@[0] ==> old(self).lookup_ok(#[trigger] hash@.update(0, b)))),
    {
        let mut h = *hash;
        let mut party_byte: u8 = 0;
        loop
            invariant
                h@.len() == 29,
                hash@.len() == 29,
                h@.subrange(1, 29) == hash@.subrange(1, 29),
                party_byte == 0 ==> h == *hash,
                party_byte > 0 ==> h@ == hash@.update(0, party_byte),
                party_byte > 0 ==> old(self).lookup_ok(hash@),
                forall|b: u8| 1 <= b < party_byte ==> old(self).lookup_ok(
                    #[trigger] hash@.update(0, b),
                ),
                self.same_but_cache(old(self)),
                forall|x: Seq<u8>| #[trigger]
                    self.lookup_ok(x) == old(self).lookup_ok(x) && (self.lookup_ok(x)
                        ==> self.lookup(x) == old(self).lookup(x)),
            decreases 255 - party_byte,
        {
            let ghost pre = *self;
            let conflict = self.get_commit(h);
            proof {
                assert forall|x: Seq<u8>| #[trigger] self.lookup_ok(x) == old(self).lookup_ok(x)
                    && (self.lookup_ok(x) ==> self.lookup(x) == old(self).lookup(x)) by {
                    assert(pre.lookup_ok(x) == old(self).lookup_ok(x) && (pre.lookup_ok(x)
                        ==> pre.lookup(x) == old(self).lookup(x)));
                    assert(self.lookup_ok(x) == pre.lookup_ok(x) && (self.lookup_ok(x)
                        ==> self.lookup(x) == pre.lookup(x)));
                }
            }
            if conflict.is_some() {
                if party_byte == 255 {
                    return h;
                }
                party_byte = party_byte + 1;
                h.set_inequailty_byte(party_byte);
                proof {
                    assert(h@.subrange(1, 29) =~= hash@.subrange(1, 29));
                    assert(h@ =~= hash@.update(0, party_byte));
                }
            } else {
                proof {
                    if party_byte == 0 {
                        assert(h == *hash);
                    }
                }
                return h;
            }
        }
    }

    /// The chain of records reached from an identifier by following the
    /// previous-commit pointers, newest first: exactly `spec_chain` at
    /// the repository's record budget. The walk stops at a missing
    /// record (the zero identifier names none), and within as many steps
    /// as the repository holds records, so a corrupted cycle cannot hold
    /// it.
    pub fn get_commit_chain(&mut self, commit: U232) -> (r: Vec<RepoFile>)
        ensures
            final(self).same_but_cache(old(self)),
            forall|x: Seq<u8>| #[trigger]
                final(self).lookup_ok(x) == old(self).lookup_ok(x) && (final(self).lookup_ok(x)
                    ==> final(self).lookup(x) == old(self).lookup(x)),
            r.deep_view() == spec_chain(*old(self), commit@, spec_chain_bound(*old(self))),
            r@.len() <= old(self).commits@.len() + old(self).store@.len() + 1,
            spec_lookups_monotone(*old(self), *final(self)),
            final(self).commits@.len() >= old(self).commits@.len(),
            r@.len() > 0 ==> old(self).lookup_ok(commit@) && r@[0]@ == old(self).lookup(commit@),
            r@.len() == 0 ==> !old(self).lookup_ok(commit@),
            forall|k: int|
                0 < k < r@.len() ==> old(self).lookup_ok((#[trigger] r@[k - 1]).previous_commit@)
                    && r@[k]@ == old(self).lookup(r@[k - 1].previous_commit@),
    {
        let mut stack: Vec<RepoFile> = Vec::new();
        let a = self.commits.len();
        let b = self.store.files.len();
        let bound = if a <= usize::MAX - 1 && b <= usize::MAX - 1 - a {
            a + b + 1
        } else {
            usize::MAX
        };
        proof {
            assert(self.store@.len() == self.store.files@.len());
        }
        proof {
            assert(bound as int == spec_chain_bound(*self));
        }
        let mut index = commit;
        proof {
            assert(stack.deep_view() + spec_chain(*self, commit@, bound as int) =~= spec_chain(
                *self,
                commit@,
                bound as int,
            ));
        }
        loop
            invariant
                self.same_but_cache(old(self)),
                forall|x: Seq<u8>| #[trigger]
                    self.lookup_ok(x) == old(self).lookup_ok(x) && (self.lookup_ok(x)
                        ==> self.lookup(x) == old(self).lookup(x)),
                bound >= 1,
                self.commits@.len() >= old(self).commits@.len(),
                bound as int == spec_chain_bound(*old(self)),
                bound <= old(self).commits@.len() + old(self).store@.len() + 1,
                old(self).commits@.len() + old(self).store@.len() + 1 <= usize::MAX ==> bound
                    == old(self).commits@.len() + old(self).store@.len() + 1,
                stack@.len() <= bound,
                stack.deep_view().len() == stack@.len(),
                spec_chain(*old(self), commit@, bound as int) == stack.deep_view() + spec_chain(
                    *old(self),
                    index@,
                    bound - stack@.len(),
                ),
                stack@.len() > 0 ==> old(self).lookup_ok(commit@) && stack@[0]@ == old(self).lookup(commit@),
                stack@.len() == 0 ==> index == commit,
                stack@.len() > 0 ==> index == stack@.last().previous_commit,
                forall|k: int|
                    0 < k < stack@.len() ==> old(self).lookup_ok(
                        (#[trigger] stack@[k - 1]).previous_commit@,
                    ) && stack@[k]@ == old(self).lookup(stack@[k - 1].previous_commit@),
            decreases bound - stack@.len(),
        {
            if stack.len() >= bound {
                proof {
                    assert(spec_chain(*old(self), index@, bound - stack@.len())
                        =~= Seq::<crate::record::RepoFileV>::empty());
                    assert(stack.deep_view() + spec_chain(*old(self), index@, 0)
                        =~= stack.deep_view());
                }
                return stack;
            }
            let ghost pre = *self;
            let res = self.get_commit(index);
            proof {
                assert forall|x: Seq<u8>| #[trigger] self.lookup_ok(x) == old(self).lookup_ok(x)
                    && (self.lookup_ok(x) ==> self.lookup(x) == old(self).lookup(x)) by {
                    assert(pre.lookup_ok(x) == old(self).lookup_ok(x) && (pre.lookup_ok(x)
                        ==> pre.lookup(x) == old(self).lookup(x)));
                    assert(self.lookup_ok(x) == pre.lookup_ok(x) && (self.lookup_ok(x)
                        ==> self.lookup(x) == pre.lookup(x)));
                }
            }
            if let Some(file) = res {
                proof {
                    assert(file@ == pre.lookup(index@));
                    assert(pre.lookup_ok(index@) == old(self).lookup_ok(index@));
                    assert(file@ == old(self).lookup(index@));
                }
                let ghost pre_stack = stack@;
                let ghost pre_deep = stack.deep_view();
                let ghost pre_index = index;
                let ghost fuel = bound - stack@.len();
                index = file.get_previous_commit();
                stack.push(file);
                proof {
                    assert(stack@ =~= pre_stack.push(stack@.last()));
                    assert(stack.deep_view() =~~= pre_deep.push(file@));
                    // The spec chain unfolds one record.
                    assert(spec_chain(*old(self), pre_index@, fuel) == seq![old(self).lookup(
                        pre_index@,
                    )] + spec_chain(
                        *old(self),
                        old(self).lookup(pre_index@).previous_commit,
                        fuel - 1,
                    ));
                    assert(index@ == old(self).lookup(pre_index@).previous_commit);
                    assert((pre_deep + seq![file@]) + spec_chain(*old(self), index@, fuel - 1)
                        =~= pre_deep + (seq![file@] + spec_chain(*old(self), index@, fuel - 1)));
                }
            } else {
                proof {
                    assert(!old(self).lookup_ok(index@));
                    assert(spec_chain(*old(self), index@, bound - stack@.len())
                        =~= Seq::<crate::record::RepoFileV>::empty());
                    assert(stack.deep_view() + spec_chain(*old(self), index@, bound - stack@.len())
                        =~= stack.deep_view());
                }
                return stack;
            }
        }
    }
}

/// Appending one identifier extends the concatenation by its bytes.
proof fn lemma_encode_cids_snoc(ids: Seq<Seq<u8>>, x: Seq<u8>)
    ensures
        crate::record_bytes::spec_encode_cids(ids.push(x), 0) == crate::record_bytes::spec_encode_cids(
            ids,
            0,
        ) + x,
{
    lemma_encode_cids_snoc_from(ids, x, 0);
}

proof fn lemma_encode_cids_snoc_from(ids: Seq<Seq<u8>>, x: Seq<u8>, i: int)
    requires
        0 <= i <= ids.len(),
    ensures
        crate::record_bytes::spec_encode_cids(ids.push(x), i) == crate::record_bytes::spec_encode_cids(
            ids,
            i,
        ) + x,
    decreases ids.len() - i,
{
    let p = ids.push(x);
    if i == ids.len() {
        assert(p[i] == x);
        assert(crate::record_bytes::spec_encode_cids(p, i + 1) =~= Seq::<u8>::empty());
        assert(crate::record_bytes::spec_encode_cids(p, i) =~= x);
        assert(crate::record_bytes::spec_encode_cids(ids, i) =~= Seq::<u8>::empty());
        assert(crate::record_bytes::spec_encode_cids(ids, i) + x =~= x);
    } else {
        assert(p[i] == ids[i]);
        lemma_encode_cids_snoc_from(ids, x, i + 1);
        assert((ids[i] + crate::record_bytes::spec_encode_cids(ids, i + 1)) + x =~= ids[i] + (
        crate::record_bytes::spec_encode_cids(ids, i + 1) + x));
    }
}

/// The first folder-origin name along a chain: the folder's resolved
/// name.
pub open spec fn spec_folder_name(c: Seq<crate::record::RepoFileV>, j: int) -> Seq<u8>
    decreases c.len() - j,
{
    if j < 0 || j >= c.len() {
        Seq::empty()
    } else if aspect_of(c[j], 0x0D) is NewFolder {
        aspect_of(c[j], 0x0D)->NewFolder_0
    } else {
        spec_folder_name(c, j + 1)
    }
}

/// The number of records a chain walk may touch: everything the
/// repository holds, plus one step to fall off the end.
pub open spec fn spec_chain_bound(repo: StorageRepo) -> int {
    if repo.commits@.len() + repo.store@.len() + 1 <= usize::MAX {
        repo.commits@.len() + repo.store@.len() + 1int
    } else {
        usize::MAX as int
    }
}

/// Repositories that answer every lookup alike yield the same chains.
pub proof fn lemma_chain_lookup_stable(r1: StorageRepo, r2: StorageRepo, id: Seq<u8>, fuel: int)
    requires
        forall|x: Seq<u8>| #[trigger]
            r1.lookup_ok(x) == r2.lookup_ok(x) && (r1.lookup_ok(x) ==> r1.lookup(x) == r2.lookup(
                x,
            )),
    ensures
        spec_chain(r1, id, fuel) == spec_chain(r2, id, fuel),
    decreases fuel,
{
    if fuel > 0 && r1.lookup_ok(id) {
        lemma_chain_lookup_stable(r1, r2, r1.lookup(id).previous_commit, fuel - 1);
    }
}

/// A chain that ends before its budget does not grow under a larger
/// budget.
pub proof fn lemma_chain_fuel_stable(repo: StorageRepo, id: Seq<u8>, f1: int, f2: int)
    requires
        spec_chain(repo, id, f1).len() < f1,
        f1 <= f2,
    ensures
        spec_chain(repo, id, f2) == spec_chain(repo, id, f1),
    decreases f1,
{
    if f1 > 0 && repo.lookup_ok(id) {
        let prev = repo.lookup(id).previous_commit;
        assert(spec_chain(repo, id, f1) == seq![repo.lookup(id)] + spec_chain(
            repo,
            prev,
            f1 - 1,
        ));
        assert(spec_chain(repo, id, f2) == seq![repo.lookup(id)] + spec_chain(
            repo,
            prev,
            f2 - 1,
        ));
        lemma_chain_fuel_stable(repo, prev, f1 - 1, f2 - 1);
    }
}

/// The chain of records reached from an identifier within a record
/// budget: the identified record, then the chain of its predecessor; a
/// missing record or an exhausted budget ends the chain.
pub open spec fn spec_chain(repo: StorageRepo, id: Seq<u8>, fuel: int) -> Seq<
    crate::record::RepoFileV,
>
    decreases fuel,
{
    if fuel <= 0 || !repo.lookup_ok(id) {
        Seq::empty()
    } else {
        seq![repo.lookup(id)] + spec_chain(repo, repo.lookup(id).previous_commit, fuel - 1)
    }
}

/// A cache whose entries all carry other identifiers answers nothing.
proof fn lemma_cache_find_none(c: Seq<(U232, RepoFile)>, id: Seq<u8>)
    requires
        forall|j: int| 0 <= j < c.len() ==> (#[trigger] c[j]).0@ != id,
    ensures
        spec_cache_find(c, id) is None,
    decreases c.len(),
{
    if c.len() > 0 {
        let cd = c.drop_first();
        assert forall|j: int| 0 <= j < cd.len() implies (#[trigger] cd[j]).0@ != id by {
            assert(cd[j] == c[j + 1]);
        }
        lemma_cache_find_none(c.drop_first(), id);
    }
}

/// Replacing the entry that carries an identifier leaves every other
/// identifier's lookup alone.
proof fn lemma_cache_find_update_other(c: Seq<(U232, RepoFile)>, idx: int, id: U232, f: RepoFile)
    requires
        0 <= idx < c.len(),
        c[idx].0@ == id@,
    ensures
        forall|x: Seq<u8>|
            x != id@ ==> #[trigger] spec_cache_find(c.update(idx, (id, f)), x) == spec_cache_find(
                c,
                x,
            ),
    decreases c.len(),
{
    let upd = c.update(idx, (id, f));
    if idx == 0 {
        assert forall|x: Seq<u8>| x != id@ implies #[trigger] spec_cache_find(upd, x)
            == spec_cache_find(c, x) by {
            assert(upd[0].0@ == id@);
            assert(c[0].0@ == id@);
            assert(spec_cache_find(upd, x) == spec_cache_find(upd.drop_first(), x));
            assert(spec_cache_find(c, x) == spec_cache_find(c.drop_first(), x));
            assert(upd.drop_first() =~= c.drop_first());
        }
    } else {
        lemma_cache_find_update_other(c.drop_first(), idx - 1, id, f);
        assert(c.drop_first()[idx - 1] == c[idx]);
        assert forall|x: Seq<u8>| x != id@ implies #[trigger] spec_cache_find(upd, x)
            == spec_cache_find(c, x) by {
            assert(upd[0] == c[0]);
            assert(upd.drop_first() =~= c.drop_first().update(idx - 1, (id, f)));
            if c[0].0@ != x {
                assert(spec_cache_find(upd, x) == spec_cache_find(upd.drop_first(), x));
                assert(spec_cache_find(c, x) == spec_cache_find(c.drop_first(), x));
            }
        }
    }
}

/// After replacing or adding the entry at `idx` for an identifier whose
/// earlier entries all carry other identifiers, the cache lookup finds it.
proof fn lemma_cache_find_prefix(c: Seq<(U232, RepoFile)>, id: Seq<u8>, idx: int)
    requires
        0 <= idx < c.len(),
        c[idx].0@ == id,
        forall|j: int| 0 <= j < idx ==> (#[trigger] c[j]).0@ != id,
    ensures
        spec_cache_find(c, id) == Option::Some(c[idx].1),
    decreases idx,
{
    if idx == 0 {
    } else {
        assert(c.drop_first()[idx - 1] == c[idx]);
        assert forall|j: int| 0 <= j < idx - 1 implies (#[trigger] c.drop_first()[j]).0@ != id by {
            assert(c.drop_first()[j] == c[j + 1]);
        }
        lemma_cache_find_prefix(c.drop_first(), id, idx - 1);
    }
}

/// The branch names a header record lists, none when it is no header.
pub open spec fn spec_header_names(h: crate::record::RepoFileV) -> Seq<Seq<u8>> {
    if aspect_of(h, 0x00) is Head {
        aspect_of(h, 0x00)->Head_0.branches
    } else {
        Seq::empty()
    }
}

/// The branch records a folder image yields for a list of names, in
/// order: each name's file decoded, names without a readable branch head
/// record skipped.
pub open spec fn spec_load_branches(
    st: Seq<(Seq<u8>, Seq<u8>)>,
    names: Seq<Seq<u8>>,
    i: int,
) -> Seq<crate::record::RepoFileV>
    decreases names.len() - i,
{
    if i < 0 || i >= names.len() {
        Seq::empty()
    } else {
        let rest = spec_load_branches(st, names, i + 1);
        let found = spec_find(st, names[i]);
        if found is Some && found->0.len() >= 2 && found->0.len() + 70 < usize::MAX
            && spec_get_type(spec_decode_record(found->0, names[i]).content, 0x01)
            is BranchHead {
            seq![spec_decode_record(found->0, names[i])] + rest
        } else {
            rest
        }
    }
}

/// The first branch record with the given name among loaded branches.
pub open spec fn spec_branch_find(bs: Seq<RepoFile>, name: Seq<u8>) -> Option<RepoFile>
    decreases bs.len(),
{
    if bs.len() == 0 {
        Option::None
    } else if bs[0].name@ == name {
        Option::Some(bs[0])
    } else {
        spec_branch_find(bs.drop_first(), name)
    }
}

impl StorageRepo {
    /// The repository folder path this image was loaded from.
    pub fn get_folder(&self) -> (r: &Vec<u8>)
        ensures
            r@ == self.folder@,
    {
        &self.folder
    }

    /// The loaded branch head records.
    pub fn get_branches(&self) -> (r: &Vec<RepoFile>)
        ensures
            r.deep_view() == self.branches.deep_view(),
    {
        &self.branches
    }

    /// The loaded branch head record with the given name, if any.
    pub fn get_branch(&self, name: &Vec<u8>) -> (r: Option<&RepoFile>)
        ensures
            r is Some <==> spec_branch_find(self.branches@, name@) is Some,
            r is Some ==> r->0@ == spec_branch_find(self.branches@, name@)->0@,
    {
        let n = self.branches.len();
        let mut i: usize = 0;
        proof {
            assert(self.branches@.subrange(0, n as int) =~= self.branches@);
        }
        while i < n
            invariant
                i <= n,
                n == self.branches@.len(),
                spec_branch_find(self.branches@, name@) == spec_branch_find(
                    self.branches@.subrange(i as int, n as int),
                    name@,
                ),
            decreases n - i,
        {
            proof {
                assert(self.branches@.subrange(i as int, n as int)[0] == self.branches@[i as int]);
            }
            if bytes_eq(&self.branches[i].name, name) {
                return Some(&self.branches[i]);
            }
            proof {
                assert(self.branches@.subrange(i as int, n as int).drop_first()
                    =~= self.branches@.subrange(i + 1, n as int));
            }
            i = i + 1;
        }
        proof {
            assert(self.branches@.subrange(n as int, n as int) =~= Seq::<RepoFile>::empty());
        }
        None
    }

    /// Reloads the branch head records named in the header from the
    /// folder image; names without a readable branch record are skipped.
    pub fn read_branches(&mut self)
        ensures
            final(self).folder@ == old(self).folder@,
            final(self).header@ == old(self).header@,
            final(self).commits@ == old(self).commits@,
            final(self).store@ == old(self).store@,
            final(self).store.writes@ == old(self).store.writes@,
            final(self).branches.deep_view() == spec_load_branches(
                old(self).store@,
                spec_header_names(old(self).header@),
                0,
            ),
    {
        let ghost st = self.store@;
        let mut new_branches: Vec<RepoFile> = Vec::new();
        let names: Vec<Vec<u8>> = if let RepoFileType::Head(head) = self.header.get_type(0x00) {
            crate::record::clone_byte_vecs(&head.branches)
        } else {
            Vec::new()
        };
        let ghost nv = spec_header_names(self.header@);
        proof {
            assert(names.deep_view() =~~= nv);
            assert(new_branches.deep_view() + spec_load_branches(st, nv, 0) =~= spec_load_branches(
                st,
                nv,
                0,
            ));
        }
        let mut i: usize = 0;
        while i < names.len()
            invariant
                self.folder@ == old(self).folder@,
                self.header@ == old(self).header@,
                self.commits@ == old(self).commits@,
                self.store@ == old(self).store@,
                self.store.writes@ == old(self).store.writes@,
                st == old(self).store@,
                nv == names.deep_view(),
                nv.len() == names@.len(),
                i <= names@.len(),
                spec_load_branches(st, nv, 0) == new_branches.deep_view() + spec_load_branches(
                    st,
                    nv,
                    i as int,
                ),
            decreases names@.len() - i,
        {
            let ghost pre = new_branches.deep_view();
            let name = clone_bytes(&names[i]);
            proof {
                assert(name@ == nv[i as int]);
            }
            if let Some(data) = self.store.read(&name) {
                proof {
                    assert(spec_find(st, nv[i as int]) == Option::Some(data@));
                }
                if data.len() >= 2 && data.len() < usize::MAX - 70 {
                    let ghost dv = data@;
                    let branch = decode_repo_file(data, name);
                    proof {
                        assert(branch@ == spec_decode_record(dv, nv[i as int]));
                    }
                    if let RepoFileType::BranchHead = branch.get_type(0x01) {
                        new_branches.push(branch);
                        proof {
                            assert(new_branches.deep_view() =~~= pre.push(
                                spec_decode_record(dv, nv[i as int]),
                            ));
                            assert((pre + seq![spec_decode_record(dv, nv[i as int])])
                                + spec_load_branches(st, nv, i + 1) =~= pre + (seq![
                                spec_decode_record(dv, nv[i as int]),
                            ] + spec_load_branches(st, nv, i + 1)));
                        }
                    }
                }
            }
            i = i + 1;
        }
        proof {
            assert(new_branches.deep_view() + spec_load_branches(st, nv, names@.len() as int)
                =~= new_branches.deep_view());
        }
        self.branches = new_branches;
    }

    /// Rereads the header from the folder image and reloads the branch
    /// records its list names, so the loaded state reflects the image.
    pub fn update_header_and_branches(&mut self)
        ensures
            final(self).folder@ == old(self).folder@,
            final(self).commits@ == old(self).commits@,
            final(self).store@ == old(self).store@,
            final(self).store.writes@ == old(self).store.writes@,
            final(self).branches.deep_view() == spec_load_branches(
                old(self).store@,
                spec_header_names(final(self).header@),
                0,
            ),
    {
        let _changed = self.reread_header();
        self.read_branches();
    }

    /// Rereads the header record itself.
    fn reread_header(&mut self) -> (r: bool)
        ensures
            final(self).folder@ == old(self).folder@,
            final(self).branches@ == old(self).branches@,
            final(self).commits@ == old(self).commits@,
            final(self).store@ == old(self).store@,
            final(self).store.writes@ == old(self).store.writes@,
    {
        let mut header = self.header.clone();
        let changed = header.reread_file(&self.store);
        self.header = header;
        changed
    }

    /// Removes a branch from the header's list and persists the header;
    /// reports whether the branch was listed. The branch head record
    /// itself stays behind in the folder.
    pub fn delete_branch(&mut self, name: &Vec<u8>) -> (r: bool)
        ensures
            final(self).folder@ == old(self).folder@,
            final(self).commits@ == old(self).commits@,
            // Nothing changes when the branch is not listed.
            !r ==> *final(self) == *old(self),
            // On success the header record is rewritten in the folder
            // image (unless a third party moved it or the bytes carry an
            // equal hash), and the branch list reloads under the
            // shortened header; the branch head record itself stays.
            r ==> ({
                let stored = final(self).store.spec_read(final(self).header.name@);
                stored == Option::Some(spec_record_bytes(final(self).header@)) || final(self).store@
                    == old(self).store@
            }),
            r ==> final(self).branches.deep_view() == spec_load_branches(
                final(self).store@,
                spec_header_names(final(self).header@),
                0,
            ),
            // The branch is removed exactly when the header lists it.
            r <==> (aspect_of(old(self).header@, 0x00) matches AspectV::Head(h) && (exists|j: int|
                0 <= j < h.branches.len() && h.branches[j] == name@)),
            // The header's list loses the name's first occurrence.
            r ==> (aspect_of(final(self).header@, 0x00) matches AspectV::Head(hn) && (aspect_of(
                old(self).header@,
                0x00,
            ) matches AspectV::Head(ho) && (exists|j: int|
                0 <= j < ho.branches.len() && ho.branches[j] == name@ && (forall|k: int|
                    0 <= k < j ==> ho.branches[k] != name@) && hn.branches == ho.branches.remove(
                    j,
                )))),
    {
        let head_opt: Option<Head> = if let RepoFileType::Head(head) = self.header.get_type(
            0x00,
        ) {
            Some(head.clone())
        } else {
            None
        };
        if let Some(head) = head_opt {
            let ghost obs = head.branches.deep_view();
            let mut head = head;
            let mut index: usize = 0;
            let n = head.branches.len();
            while index < n
                invariant_except_break
                    index <= n,
                    n == head.branches@.len(),
                    head.branches.deep_view() == obs,
                    forall|k: int| 0 <= k < index ==> obs[k] != name@,
                invariant
                    index <= n,
                    n == head.branches@.len(),
                    head.branches.deep_view() == obs,
                ensures
                    index < n ==> obs[index as int] == name@ && (forall|k: int|
                        0 <= k < index ==> obs[k] != name@),
                    index == n ==> forall|k: int| 0 <= k < obs.len() ==> obs[k] != name@,
                decreases n - index,
            {
                proof {
                    assert(obs[index as int] == head.branches@[index as int]@);
                }
                if bytes_eq(&head.branches[index], name) {
                    break ;
                }
                index = index + 1;
            }
            if index == head.branches.len() {
                return false;
            }
            head.branches.remove(index);
            proof {
                assert(head.branches.deep_view() =~~= obs.remove(index as int));
            }
            let mut new_content: Vec<RepoFileType> = Vec::new();
            new_content.push(RepoFileType::Head(head));
            let mut new_header = self.header.clone_with_content(new_content);
            proof {
                let c = new_header@.content;
                assert(c.len() == 1);
                assert(c[0] is Head);
                assert(c.drop_first() =~= Seq::<AspectV>::empty());
                assert(spec_get_type(c.drop_first(), 0x02) is Missing);
                assert(spec_get_type(c, 0x02) is Missing);
                assert(spec_get_type(c.drop_first(), 0x00) is Missing);
            }
            let ghost pre_hv = new_header@;
            let res = new_header.write_file_back(&mut self.store);
            proof {
                assert(new_header@ =~~= crate::record::RepoFileV {
                    repo_file_hash: new_header@.repo_file_hash,
                    ..pre_hv
                });
                crate::record_bytes::lemma_record_bytes_hash_free(
                    pre_hv,
                    new_header@.repo_file_hash,
                );
                match res {
                    WritingStates::Written => {
                        assert(self.store.spec_read(new_header.name@) == Option::Some(
                            spec_record_bytes(new_header@),
                        ));
                    },
                    _ => {
                        assert(self.store@ == old(self).store@);
                    },
                }
            }
            self.header = new_header;
            // The branch list reloads under the shortened header; the
            // branch head record itself stays behind in the folder.
            self.read_branches();
            return true;
        }
        false
    }

    /// Advances a branch onto a commit, or creates the branch. The
    /// branch record as the folder image holds it just before the call
    /// decides: a missing branch is created pointing at the commit; an
    /// existing one advances only when its tip equals the commit's own
    /// previous commit, so the branch moves one commit at a time and
    /// never jumps or rewinds.
    pub fn push_commit_onto_branch(&mut self, commit_id: U232, branch_name: Vec<u8>) -> (r: bool)
        ensures
            final(self).folder@ == old(self).folder@,
            r && old(self).store.spec_read(branch_name@) is Some ==> ({
                let bb = old(self).store.spec_read(branch_name@)->0;
                &&& bb.len() >= 2
                &&& old(self).lookup_ok(commit_id@)
                &&& old(self).lookup(commit_id@).previous_commit == spec_decode_record(
                    bb,
                    branch_name@,
                ).previous_commit
                &&& final(self).store.spec_read(branch_name@) is Some
            }),
            // Success is owed when the commit is readable and the stored
            // branch record's tip is the commit's own predecessor.
            ({
                let bb_opt = old(self).store.spec_read(branch_name@);
                &&& old(self).lookup_ok(commit_id@)
                &&& bb_opt matches Option::Some(bb)
                &&& bb.len() >= 2
                &&& bb.len() + 70 < usize::MAX
                &&& spec_decode_record(bb, branch_name@).previous_commit == old(self).lookup(
                    commit_id@,
                ).previous_commit
            }) ==> r,
            // On success over an existing branch, the stored branch
            // record advances to the commit (or already carried bytes of
            // the same hash).
            (r && old(self).store.spec_read(branch_name@) is Some && old(self).store.spec_read(
                branch_name@,
            )->0.len() >= 2 && old(self).store.spec_read(branch_name@)->0.len() + 70
                < usize::MAX) ==> ({
                let bb = old(self).store.spec_read(branch_name@)->0;
                let upd = crate::record::RepoFileV {
                    previous_commit: commit_id@,
                    ..spec_decode_record(bb, branch_name@)
                };
                final(self).store.spec_read(branch_name@) == Option::Some(spec_record_bytes(upd))
                    || (final(self).store.spec_read(branch_name@) == Option::Some(bb)
                        && spec_hash_cid(spec_record_bytes(upd)) == spec_hash_cid(bb))
            }),
            r ==> spec_branch_find(final(self).branches@, branch_name@) is Some
                && spec_branch_find(final(self).branches@, branch_name@)->0.previous_commit@
                == commit_id@,
    {
        self.update_header_and_branches();

        // The commit to advance onto must be readable.
        let commit_opt = self.get_commit(commit_id);
        let commit = if let Some(c) = commit_opt {
            c
        } else {
            return false;
        };

        let branch_bytes = self.store.read(&branch_name);
        if let Some(bb) = branch_bytes {
            if bb.len() < 2 || bb.len() >= usize::MAX - 70 {
                return false;
            }
            let ghost bbv = old(self).store.spec_read(branch_name@)->0;
            let ghost dec = spec_decode_record(bbv, branch_name@);
            let brec = decode_repo_file(bb, clone_bytes(&branch_name));
            proof {
                assert(brec@ == dec);
            }
            if !commit.get_previous_commit().eq(&brec.get_previous_commit()) {
                // The branch has moved on: a conflict.
                return false;
            }
            let mut newb = brec.clone_with_prev_commit(commit_id);
            let ghost upd = crate::record::RepoFileV { previous_commit: commit_id@, ..dec };
            proof {
                assert(newb@ =~~= upd);
                crate::record_bytes::lemma_decoded_psize_ok(bbv, branch_name@);
            }
            let res = newb.write_file_back(&mut self.store);
            proof {
                if res is Conflict {
                    // The disk still holds the bytes the branch record
                    // was decoded from, so a conflict cannot arise.
                    assert(spec_hash_cid(bbv) == dec.repo_file_hash);
                    assert(false);
                }
            }
            let ghost mid = *self;
            self.put_branch(newb);
            proof {
                assert(self.store@ == mid.store@);
                assert(self.store.spec_read(branch_name@) == mid.store.spec_read(branch_name@));
                match res {
                    WritingStates::Written => {
                        assert(mid.store.spec_read(branch_name@) == Option::Some(
                            spec_record_bytes(upd),
                        ));
                    },
                    WritingStates::NotNecessary => {
                        assert(mid.store@ == old(self).store@);
                        assert(spec_hash_cid(spec_record_bytes(upd)) == spec_hash_cid(bbv));
                    },
                    WritingStates::Conflict(_b) => {
                        assert(false);
                    },
                }
            }
            return true;
        }
        proof {
            assert(old(self).store.spec_read(branch_name@) is None);
        }

        // No branch record: create one.
        let head_opt: Option<Head> = if let RepoFileType::Head(head) = self.header.get_type(
            0x00,
        ) {
            Some(head.clone())
        } else {
            None
        };
        if let Some(head) = head_opt {
            let mut head = head;
            head.branches.push(clone_bytes(&branch_name));
            let mut branch_content: Vec<RepoFileType> = Vec::new();
            branch_content.push(RepoFileType::BranchHead);
            let mut branch = RepoFile::new(
                0,
                clone_bytes(&branch_name),
                branch_content,
                commit_id,
                U232::new(),
            );
            proof {
                let c = branch@.content;
                assert(c.len() == 1);
                assert(c[0] is BranchHead);
                assert(c.drop_first() =~= Seq::<AspectV>::empty());
                assert(spec_get_type(c.drop_first(), 0x02) is Missing);
                assert(spec_get_type(c, 0x02) is Missing);
            }
            let _res = branch.write_file_back(&mut self.store);
            let mut head_content: Vec<RepoFileType> = Vec::new();
            head_content.push(RepoFileType::Head(head));
            let mut new_header = self.header.clone_with_content(head_content);
            proof {
                let c = new_header@.content;
                assert(c.len() == 1);
                assert(c[0] is Head);
                assert(c.drop_first() =~= Seq::<AspectV>::empty());
                assert(spec_get_type(c.drop_first(), 0x02) is Missing);
                assert(spec_get_type(c, 0x02) is Missing);
            }
            let _res2 = new_header.write_file_back(&mut self.store);
            self.header = new_header;
            self.put_branch(branch);
            return true;
        }
        false
    }

    /// Replaces the loaded branch record of the same name, or adds it.
    fn put_branch(&mut self, branch: RepoFile)
        ensures
            final(self).folder@ == old(self).folder@,
            final(self).header@ == old(self).header@,
            final(self).commits@ == old(self).commits@,
            final(self).store@ == old(self).store@,
            final(self).store.writes@ == old(self).store.writes@,
            spec_branch_find(final(self).branches@, branch.name@) is Some,
            spec_branch_find(final(self).branches@, branch.name@)->0 == branch,
    {
        let mut i: usize = 0;
        let n = self.branches.len();
        let mut found: Option<usize> = None;
        while i < n
            invariant_except_break
                found is None,
            invariant
                i <= n,
                n == self.branches@.len(),
                forall|j: int| 0 <= j < i ==> (#[trigger] self.branches@[j]).name@ != branch.name@,
            ensures
                found is Some ==> found->0 < n && self.branches@[found->0 as int].name@
                    == branch.name@ && forall|j: int|
                    0 <= j < found->0 ==> (#[trigger] self.branches@[j]).name@ != branch.name@,
                found is None ==> forall|j: int|
                    0 <= j < self.branches@.len() ==> (#[trigger] self.branches@[j]).name@
                        != branch.name@,
            decreases n - i,
        {
            if bytes_eq(&self.branches[i].name, &branch.name) {
                found = Some(i);
                break ;
            }
            i = i + 1;
        }
        if let Some(idx) = found {
            self.branches.set(idx, branch);
            proof {
                lemma_branch_find_prefix(self.branches@, self.branches@[idx as int].name@, idx as int);
            }
        } else {
            let ghost pre = self.branches@;
            self.branches.push(branch);
            proof {
                lemma_branch_find_prefix(self.branches@, self.branches@.last().name@, pre.len() as int);
            }
        }
    }
}

/// The branch lookup finds the entry at `idx` when all earlier entries
/// carry other names.
proof fn lemma_branch_find_prefix(bs: Seq<RepoFile>, name: Seq<u8>, idx: int)
    requires
        0 <= idx < bs.len(),
        bs[idx].name@ == name,
        forall|j: int| 0 <= j < idx ==> (#[trigger] bs[j]).name@ != name,
    ensures
        spec_branch_find(bs, name) == Option::Some(bs[idx]),
    decreases idx,
{
    if idx == 0 {
    } else {
        assert(bs.drop_first()[idx - 1] == bs[idx]);
        assert forall|j: int| 0 <= j < idx - 1 implies (#[trigger] bs.drop_first()[j]).name@
            != name by {
            assert(bs.drop_first()[j] == bs[j + 1]);
        }
        lemma_branch_find_prefix(bs.drop_first(), name, idx - 1);
    }
}

// ---------------------------------------------------------------------
// Working-tree reconstruction
// ---------------------------------------------------------------------

/// How many records of a chain belong to one file's history: everything
/// up to and including the nearest origin record.
pub open spec fn spec_cut_len(c: Seq<crate::record::RepoFileV>) -> int
    decreases c.len(),
{
    if c.len() == 0 {
        0
    } else if aspect_of(c[0], 0x03) is NewFile {
        1
    } else {
        1 + spec_cut_len(c.drop_first())
    }
}

/// The largest resize value among the first `n` records, as a buffer
/// length.
pub open spec fn spec_max_size(c: Seq<crate::record::RepoFileV>, n: int) -> int
    decreases n,
{
    if n <= 0 {
        0
    } else {
        let rest = spec_max_size(c, n - 1);
        let rz = aspect_of(c[n - 1], 0x08);
        if rz is Resize && spec_to_size(rz->Resize_0) > rest {
            spec_to_size(rz->Resize_0)
        } else {
            rest
        }
    }
}

/// A stored size as a buffer length: too large for the platform becomes
/// zero.
pub open spec fn spec_to_size(v: u64) -> int {
    if v <= usize::MAX {
        v as int
    } else {
        0
    }
}

/// The newest resize among the first `n` records of a chain: the file's
/// current size.
pub open spec fn spec_cur_size(c: Seq<crate::record::RepoFileV>, j: int, n: int) -> int
    decreases n - j,
{
    if j < 0 || j >= n {
        0
    } else {
        let rz = aspect_of(c[j], 0x08);
        if rz is Resize && spec_to_size(rz->Resize_0) != 0 {
            spec_to_size(rz->Resize_0)
        } else {
            spec_cur_size(c, j + 1, n)
        }
    }
}

/// The newest rename among the first `n` records of a chain: the file's
/// current name.
pub open spec fn spec_cur_name(c: Seq<crate::record::RepoFileV>, j: int, n: int) -> Seq<u8>
    decreases n - j,
{
    if j < 0 || j >= n {
        Seq::empty()
    } else {
        let rn = aspect_of(c[j], 0x04);
        if rn is Rename && rn->Rename_0.len() != 0 {
            rn->Rename_0
        } else {
            spec_cur_name(c, j + 1, n)
        }
    }
}

/// One replay step of the reconstruction: a record's edit instructions
/// run over the buffer, under a pointer size inherited along the chain
/// and updated by the record's own resize or parsed edit.
pub open spec fn spec_assemble_step(
    f: crate::record::RepoFileV,
    buf: Seq<u8>,
    psize: int,
) -> (Seq<u8>, int) {
    let ed = aspect_of(f, 0x02);
    if ed is Edit {
        (crate::delta::spec_replay(ed->Edit_0, buf, 0), ed->Edit_1)
    } else if ed is EditNotProcessed {
        let p2 = if aspect_of(f, 0x08) is Resize {
            crate::record_bytes::spec_psize_of_len(aspect_of(f, 0x08)->Resize_0)
        } else {
            psize
        };
        if 1 <= p2 <= 8 && ed->EditNotProcessed_0.len() + 17 < usize::MAX {
            (
                crate::delta::spec_replay(
                    crate::record_bytes::spec_parse_ins(ed->EditNotProcessed_0, p2),
                    buf,
                    0,
                ),
                p2,
            )
        } else {
            (buf, p2)
        }
    } else {
        let p2 = if aspect_of(f, 0x08) is Resize {
            crate::record_bytes::spec_psize_of_len(aspect_of(f, 0x08)->Resize_0)
        } else {
            psize
        };
        (buf, p2)
    }
}

/// The buffer and pointer size after replaying the records from index
/// `j` down to the newest.
pub open spec fn spec_assemble_from(
    c: Seq<crate::record::RepoFileV>,
    j: int,
    buf: Seq<u8>,
    psize: int,
) -> (Seq<u8>, int)
    decreases j + 1,
{
    if j < 0 || j >= c.len() {
        (buf, psize)
    } else {
        let st = spec_assemble_step(c[j], buf, psize);
        spec_assemble_from(c, j - 1, st.0, st.1)
    }
}

/// The reconstructed bytes of the file a chain describes: a zero buffer
/// of the largest historical size, the edit scripts replayed oldest
/// first, then a cut to the current size.
pub open spec fn spec_assemble_bytes(c: Seq<crate::record::RepoFileV>) -> Seq<u8> {
    let n = spec_cut_len(c);
    let maxs = spec_max_size(c, n);
    let buf0 = Seq::new(maxs as nat, |i: int| 0u8);
    let res = spec_assemble_from(c, n - 1, buf0, 0);
    let cur = spec_cur_size(c, 0, n);
    res.0.take(if cur <= res.0.len() {
        cur
    } else {
        res.0.len() as int
    })
}

/// Replays a chain of records into the file it describes, returning the
/// file's resolved name and bytes.
#[verifier::rlimit(100)]
#[verifier::spinoff_prover]
pub fn assemble_file(chain: &Vec<RepoFile>) -> (r: (Vec<u8>, Vec<u8>))
    ensures
        r.0@ == spec_cur_name(chain.deep_view(), 0, spec_cut_len(chain.deep_view())),
        r.1@ == spec_assemble_bytes(chain.deep_view()),
{
    let ghost c = chain.deep_view();
    let mut max_file_size: usize = 0;
    let mut cur_file_size: usize = 0;
    let mut file_name: Vec<u8> = Vec::new();
    let mut cut: usize = 0;

    // Walk into the past up to the origin, noting sizes and the name.
    let mut i: usize = 0;
    let mut found_origin = false;
    while i < chain.len()
        invariant_except_break
            cut == i,
            !found_origin,
            i <= chain@.len(),
            forall|k: int| 0 <= k < i ==> !(aspect_of(#[trigger] c[k], 0x03) is NewFile),
        invariant
            c == chain.deep_view(),
            c.len() == chain@.len(),
            cut <= chain@.len(),
            max_file_size as int == spec_max_size(c, cut as int),
            cur_file_size as int == spec_cur_size(c, 0, cut as int),
            file_name@ == spec_cur_name(c, 0, cut as int),
        ensures
            max_file_size as int == spec_max_size(c, cut as int),
            cur_file_size as int == spec_cur_size(c, 0, cut as int),
            file_name@ == spec_cur_name(c, 0, cut as int),
            found_origin ==> 1 <= cut <= c.len() && aspect_of(c[cut - 1], 0x03) is NewFile
                && forall|k: int| 0 <= k < cut - 1 ==> !(aspect_of(
                #[trigger] c[k],
                0x03,
            ) is NewFile),
            !found_origin ==> cut == c.len() && forall|k: int|
                0 <= k < c.len() ==> !(aspect_of(#[trigger] c[k], 0x03) is NewFile),
        decreases chain@.len() - i,
    {
        proof {
            lemma_cur_scan_extend(c, 0, i as int);
        }
        let temp = &chain[i];
        if let RepoFileType::Resize(size) = temp.get_type(0x08) {
            let size = crate::codec::u64_to_usize(*size);
            if size > max_file_size {
                max_file_size = size;
            }
            if cur_file_size == 0 && size != 0 {
                cur_file_size = size;
            }
        }
        if file_name.len() == 0 {
            if let RepoFileType::Rename(name) = temp.get_type(0x04) {
                file_name = clone_bytes(name);
            }
        }
        let is_origin = matches!(temp.get_type(0x03), RepoFileType::NewFile);
        cut = i + 1;
        i = i + 1;
        proof {
            lemma_cur_scan_extend(c, 0, i as int);
            assert(spec_max_size(c, i as int) == ({
                let rest = spec_max_size(c, i - 1);
                let rz = aspect_of(c[i - 1], 0x08);
                if rz is Resize && spec_to_size(rz->Resize_0) > rest {
                    spec_to_size(rz->Resize_0)
                } else {
                    rest
                }
            }));
        }
        if is_origin {
            found_origin = true;
            break ;
        }
    }
    proof {
        if found_origin {
            lemma_cut_len_at(c, cut as int);
        } else {
            lemma_cut_len_all(c);
        }
        assert(cut as int == spec_cut_len(c));
    }

    // A zeroed buffer of the largest historical size.
    let mut data: Vec<u8> = Vec::new();
    while data.len() < max_file_size
        invariant
            data@ == Seq::new(data@.len(), |k: int| 0u8),
            data@.len() <= max_file_size,
        decreases max_file_size - data@.len(),
    {
        data.push(0u8);
        proof {
            assert(data@ =~= Seq::new(data@.len(), |k: int| 0u8));
        }
    }
    proof {
        assert(data@ =~= Seq::new(max_file_size as nat, |k: int| 0u8));
    }

    // Replay the edits, oldest first, inheriting the pointer size.
    let mut pointer_size: usize = 0;
    let mut j: usize = cut;
    while j > 0
        invariant
            c == chain.deep_view(),
            c.len() == chain@.len(),
            cut <= chain@.len(),
            j <= cut,
            spec_assemble_from(c, cut - 1, Seq::new(max_file_size as nat, |k: int| 0u8), 0) ==
                spec_assemble_from(c, j - 1, data@, pointer_size as int),
        decreases j,
    {
        j = j - 1;
        let ghost pre_buf = data@;
        let ghost pre_psize = pointer_size as int;
        let item = &chain[j];
        if let RepoFileType::Edit(ins, p_size) = item.get_type(0x02) {
            pointer_size = *p_size;
            let m = ins.len();
            let mut k: usize = 0;
            let ghost insv = ins.deep_view();
            while k < m
                invariant
                    m == ins@.len(),
                    insv == ins.deep_view(),
                    insv.len() == ins@.len(),
                    k <= m,
                    crate::delta::spec_replay(insv, pre_buf, 0) == crate::delta::spec_replay(
                        insv,
                        data@,
                        k as int,
                    ),
                decreases m - k,
            {
                ins[k].run_instruction(&mut data);
                k = k + 1;
            }
        } else if let RepoFileType::EditNotProcessed(raw) = item.get_type(0x02) {
            if let RepoFileType::Resize(size) = item.get_type(0x08) {
                pointer_size = crate::record_bytes::psize_of_len(*size);
            }
            if 1 <= pointer_size && pointer_size <= 8 && raw.len() < usize::MAX - 17 {
                let ins = crate::record_bytes::parse_instruction_bytes(
                    raw.as_slice(),
                    pointer_size,
                );
                let m = ins.len();
                let mut k: usize = 0;
                let ghost insv = ins.deep_view();
                while k < m
                    invariant
                        m == ins@.len(),
                        insv == ins.deep_view(),
                        insv.len() == ins@.len(),
                        k <= m,
                        crate::delta::spec_replay(insv, pre_buf, 0) == crate::delta::spec_replay(
                            insv,
                            data@,
                            k as int,
                        ),
                    decreases m - k,
                {
                    ins[k].run_instruction(&mut data);
                    k = k + 1;
                }
            }
        } else {
            if let RepoFileType::Resize(size) = item.get_type(0x08) {
                pointer_size = crate::record_bytes::psize_of_len(*size);
            }
        }
        proof {
            assert((data@, pointer_size as int) == spec_assemble_step(c[j as int], pre_buf, pre_psize));
        }
    }

    // Cut to the current size.
    proof {
        let buf0 = Seq::new(max_file_size as nat, |k: int| 0u8);
        let res = spec_assemble_from(c, cut - 1, buf0, 0);
        assert(spec_assemble_from(c, -1, data@, pointer_size as int) == (
            data@,
            pointer_size as int,
        ));
        assert(res.0 == data@);
    }
    let keep = if cur_file_size > data.len() {
        data.len()
    } else {
        cur_file_size
    };
    let ghost pre_cut = data@;
    data.truncate(keep);
    proof {
        assert(data@ =~= pre_cut.take(keep as int));
        assert(data@ =~= spec_assemble_bytes(c));
    }
    (file_name, data)
}

/// Extending a newest-first scan by one record at the old end leaves the
/// newest match in place.
proof fn lemma_cur_scan_extend(c: Seq<crate::record::RepoFileV>, j: int, n: int)
    requires
        0 <= j,
    ensures
        spec_cur_size(c, j, n + 1) == ({
            if j > n {
                0
            } else {
                let rz = aspect_of(c[n], 0x08);
                if spec_cur_size(c, j, n) != 0 {
                    spec_cur_size(c, j, n)
                } else if rz is Resize && spec_to_size(rz->Resize_0) != 0 {
                    spec_to_size(rz->Resize_0)
                } else {
                    0
                }
            }
        }),
        spec_cur_name(c, j, n + 1) == ({
            if j > n {
                Seq::<u8>::empty()
            } else {
                let rn = aspect_of(c[n], 0x04);
                if spec_cur_name(c, j, n).len() != 0 {
                    spec_cur_name(c, j, n)
                } else if rn is Rename && rn->Rename_0.len() != 0 {
                    rn->Rename_0
                } else {
                    Seq::<u8>::empty()
                }
            }
        }),
    decreases n - j,
{
    if j < n {
        lemma_cur_scan_extend(c, j + 1, n);
        let rz = aspect_of(c[j], 0x08);
        assert(spec_cur_size(c, j, n + 1) == (if rz is Resize && spec_to_size(rz->Resize_0) != 0 {
            spec_to_size(rz->Resize_0)
        } else {
            spec_cur_size(c, j + 1, n + 1)
        }));
        assert(spec_cur_size(c, j, n) == (if rz is Resize && spec_to_size(rz->Resize_0) != 0 {
            spec_to_size(rz->Resize_0)
        } else {
            spec_cur_size(c, j + 1, n)
        }));
        let rn = aspect_of(c[j], 0x04);
        assert(spec_cur_name(c, j, n + 1) == (if rn is Rename && rn->Rename_0.len() != 0 {
            rn->Rename_0
        } else {
            spec_cur_name(c, j + 1, n + 1)
        }));
        assert(spec_cur_name(c, j, n) == (if rn is Rename && rn->Rename_0.len() != 0 {
            rn->Rename_0
        } else {
            spec_cur_name(c, j + 1, n)
        }));
    } else if j == n {
        assert(spec_cur_size(c, n + 1, n + 1) == 0);
        assert(spec_cur_name(c, n + 1, n + 1) == Seq::<u8>::empty());
        assert(spec_cur_size(c, n, n) == 0);
        assert(spec_cur_name(c, n, n) == Seq::<u8>::empty());
    }
}

/// A scan that found no origin before index `n` and an origin at `n - 1`
/// has found the cut.
proof fn lemma_cut_len_at(c: Seq<crate::record::RepoFileV>, n: int)
    requires
        1 <= n <= c.len(),
        forall|k: int| 0 <= k < n - 1 ==> !(aspect_of(#[trigger] c[k], 0x03) is NewFile),
        aspect_of(c[n - 1], 0x03) is NewFile,
    ensures
        spec_cut_len(c) == n,
    decreases n,
{
    if n > 1 {
        assert(c.drop_first()[n - 2] == c[n - 1]);
        assert forall|k: int| 0 <= k < n - 2 implies !(aspect_of(
            #[trigger] c.drop_first()[k],
            0x03,
        ) is NewFile) by {
            assert(c.drop_first()[k] == c[k + 1]);
        }
        lemma_cut_len_at(c.drop_first(), n - 1);
    }
}

/// A scan that exhausted the chain without an origin cuts nothing off.
proof fn lemma_cut_len_all(c: Seq<crate::record::RepoFileV>)
    requires
        forall|k: int| 0 <= k < c.len() ==> !(aspect_of(#[trigger] c[k], 0x03) is NewFile),
    ensures
        spec_cut_len(c) == c.len(),
    decreases c.len(),
{
    if c.len() > 0 {
        assert forall|k: int| 0 <= k < c.drop_first().len() implies !(aspect_of(
            #[trigger] c.drop_first()[k],
            0x03,
        ) is NewFile) by {
            assert(c.drop_first()[k] == c[k + 1]);
        }
        lemma_cut_len_all(c.drop_first());
    }
}

impl StorageRepo {
    /// Rebuilds the file a commit describes: its chain is walked back to
    /// the origin and the edit scripts are replayed over a zero buffer.
    /// Returns the file's resolved name and bytes: exactly the assembly
    /// of the commit's full chain.
    pub fn build_file(&mut self, commit: U232) -> (r: (Vec<u8>, Vec<u8>))
        ensures
            final(self).same_but_cache(old(self)),
            forall|x: Seq<u8>| #[trigger]
                final(self).lookup_ok(x) == old(self).lookup_ok(x) && (final(self).lookup_ok(x)
                    ==> final(self).lookup(x) == old(self).lookup(x)),
            ({
                let c = spec_chain(*old(self), commit@, spec_chain_bound(*old(self)));
                r.0@ == spec_cur_name(c, 0, spec_cut_len(c)) && r.1@ == spec_assemble_bytes(c)
            }),
            spec_lookups_monotone(*old(self), *final(self)),
            final(self).commits@.len() >= old(self).commits@.len(),
    {
        let chain = self.get_commit_chain(commit);
        assemble_file(&chain)
    }
}

/// Skipping a leading aspect of another tag leaves a lookup unchanged.
proof fn lemma_get_type_skip(c: Seq<AspectV>, typ: u8)
    requires
        c.len() > 0,
        crate::record::spec_type_code(c[0]) != typ,
    ensures
        spec_get_type(c, typ) == spec_get_type(c.drop_first(), typ),
{
}

impl StorageRepo {
    /// Records the end of a chain's life: a delete commit chaining back
    /// to the deleted entity. Deletes may share identifiers, so an
    /// existing delete record's identifier is reused.
    pub fn create_delete_commit(&mut self, prev_commit_id: U232) -> (r: U232)
        ensures
            crate::cid::spec_equal_224(r, prev_commit_id),
            final(self).lookup_ok(r@),
            final(self).lookup(r@).previous_commit == prev_commit_id@,
            aspect_of(final(self).lookup(r@), 0x05) is Delete,
            // The identifier never displaces a live record: it was free,
            // named a delete that may be shared, or every collision byte
            // was taken.
            !old(self).lookup_ok(r@) || aspect_of(old(self).lookup(r@), 0x05) is Delete || r@[0]
                == 255,
            // The record carries the delete aspect only.
            final(self).lookup(r@).content == seq![AspectV::Delete],
            // Other identifiers are untouched.
            final(self).folder@ == old(self).folder@,
            final(self).header@ == old(self).header@,
            final(self).branches.deep_view() == old(self).branches.deep_view(),
            forall|x: Seq<u8>|
                x != r@ ==> #[trigger] final(self).lookup_ok(x) == old(self).lookup_ok(x) && (
                final(self).lookup_ok(x) ==> final(self).lookup(x) == old(self).lookup(x)),
            spec_lookups_monotone(*old(self), *final(self)),
    {
        let ghost pre0 = *self;
        let id = self.get_free_commit_id_for_delete(&prev_commit_id);
        let mut content: Vec<RepoFileType> = Vec::new();
        content.push(RepoFileType::Delete);
        let repo = RepoFile::new(
            0,
            hex_name_of(&id),
            content,
            prev_commit_id,
            U232::new(),
        );
        proof {
            let c = repo@.content;
            assert(c.len() == 1);
            assert(c[0] is Delete);
            assert(c.drop_first() =~= Seq::<AspectV>::empty());
            assert(spec_get_type(c.drop_first(), 0x02) is Missing);
            assert(spec_get_type(c, 0x02) is Missing);
            assert(spec_get_type(c.drop_first(), 0x05) is Missing);
            assert(spec_get_type(c, 0x05) is Delete);
        }
        self.insert_commit(repo, id)
    }

    /// Commits one file. An unchanged file under its current name is a
    /// no-op that hands its predecessor back; a predecessor that was
    /// deleted starts a fresh chain; otherwise the old bytes are rebuilt,
    /// the difference is encoded, and a new record is persisted under a
    /// fresh identifier.
    pub fn create_file_commit(
        &mut self,
        prev_commit: Option<U232>,
        name: &Vec<u8>,
        data: &Vec<u8>,
    ) -> (r: Option<U232>)
        ensures
            // Success is owed whenever the predecessor, if any, is
            // readable and the content is not absurdly large.
            (data@.len() + 17 < usize::MAX && (prev_commit is None || old(self).lookup_ok(
                prev_commit->0@,
            ))) ==> r is Some,
            r is None ==> ((prev_commit matches Option::Some(p) && !old(self).lookup_ok(p@))
                || data@.len() + 17 >= usize::MAX),
            r is Some ==> final(self).lookup_ok(r->0@),
            // The identifier's digest part is the content's hash.
            r is Some ==> r->0@.subrange(1, 29) == spec_hash_cid(data@).subrange(1, 29),
            // A new record never displaces an existing one: its
            // identifier was free, already handed back as the no-op, or
            // every collision byte was taken.
            (r is Some && !(prev_commit matches Option::Some(p) && old(self).lookup_ok(p@)
                && aspect_of(old(self).lookup(p@), 0x05) is Delete)) ==> (!old(self).lookup_ok(
                r->0@,
            ) || r == Option::Some(prev_commit->0) || r->0@[0] == 255),
            // Only the new record's identifier is touched.
            final(self).folder@ == old(self).folder@,
            final(self).header@ == old(self).header@,
            final(self).branches.deep_view() == old(self).branches.deep_view(),
            r is Some ==> (forall|x: Seq<u8>|
                x != r->0@ ==> #[trigger] final(self).lookup_ok(x) == old(self).lookup_ok(x) && (
                final(self).lookup_ok(x) ==> final(self).lookup(x) == old(self).lookup(x))),
            r is None ==> (forall|x: Seq<u8>| #[trigger]
                final(self).lookup_ok(x) == old(self).lookup_ok(x) && (final(self).lookup_ok(x)
                    ==> final(self).lookup(x) == old(self).lookup(x))),
            spec_lookups_monotone(*old(self), *final(self)),
            // The no-op rule: bytes unchanged from a live predecessor and
            // the name unchanged too hand the predecessor back untouched.
            (prev_commit matches Option::Some(p) && data@.len() + 17 < usize::MAX && old(
                self,
            ).lookup_ok(p@) && !(aspect_of(old(self).lookup(p@), 0x05) is Delete)
                && spec_hash_cid(data@).subrange(1, 29) == p@.subrange(1, 29) && ({
                let c = spec_chain(*old(self), p@, spec_chain_bound(*old(self)));
                spec_cur_name(c, 0, spec_cut_len(c)) == name@
            })) ==> r == Option::Some(prev_commit->0) && final(self).same_but_cache(old(self)),
            // The record written for a live predecessor: the predecessor
            // pointer, a resize exactly when the length moved, a rename
            // exactly when the name moved, and an edit script that
            // provably replays the old bytes into the new ones.
            (prev_commit matches Option::Some(p) && data@.len() + 17 < usize::MAX && old(
                self,
            ).lookup_ok(p@) && !(aspect_of(old(self).lookup(p@), 0x05) is Delete) && !(
            spec_hash_cid(data@).subrange(1, 29) == p@.subrange(1, 29) && ({
                let c = spec_chain(*old(self), p@, spec_chain_bound(*old(self)));
                spec_cur_name(c, 0, spec_cut_len(c)) == name@
            }))) ==> ({
                let c = spec_chain(
                    *old(self),
                    prev_commit->0@,
                    spec_chain_bound(*old(self)),
                );
                let old_bytes = spec_assemble_bytes(c);
                let old_name = spec_cur_name(c, 0, spec_cut_len(c));
                let rec = final(self).lookup(r->0@);
                &&& r is Some
                &&& rec.previous_commit == prev_commit->0@
                &&& (exists|ins: Seq<crate::record::InstructionV>, ps: int|
                    rec.content == spec_file_commit_content(
                        false,
                        old_bytes.len() != data@.len(),
                        old_name != name@,
                        name@,
                        data@.len() as u64,
                        ins,
                        ps,
                    ) && ps == crate::record_bytes::spec_psize_of_len(data@.len() as u64)
                        && #[trigger] crate::delta::wf_instructions(ins, ps, data@.len() as int)
                        && crate::delta::spec_replay(
                        ins,
                        crate::delta::spec_resize(old_bytes, data@.len() as int),
                        0,
                    ) == data@)
            }),
            // The record written for a fresh file: the origin mark, the
            // size when there is content, the name, and an edit script
            // that provably replays a zero buffer into the bytes.
            (prev_commit is None && data@.len() + 17 < usize::MAX) ==> ({
                let rec = final(self).lookup(r->0@);
                &&& r is Some
                &&& rec.previous_commit == crate::cid::zero_cid()
                &&& (exists|ins: Seq<crate::record::InstructionV>, ps: int|
                    rec.content == spec_file_commit_content(
                        true,
                        data@.len() != 0,
                        true,
                        name@,
                        data@.len() as u64,
                        ins,
                        ps,
                    ) && ps == crate::record_bytes::spec_psize_of_len(data@.len() as u64)
                        && #[trigger] crate::delta::wf_instructions(ins, ps, data@.len() as int)
                        && crate::delta::spec_replay(
                        ins,
                        crate::delta::spec_resize(Seq::<u8>::empty(), data@.len() as int),
                        0,
                    ) == data@)
            }),
        decreases (if prev_commit is Some {
            1int
        } else {
            0int
        }),
    {
        if data.len() >= usize::MAX - 17 {
            return None;
        }
        let new_hash = crate::hashing::hash_data(data.as_slice());

        let mut old_data: Vec<u8> = Vec::new();
        let mut rename: Option<Vec<u8>> = Some(clone_bytes(name));
        let mut prev_com_id = U232::new();
        let mut is_new = true;
        let ghost mut need_resize: bool = data@.len() != 0;

        if let Some(old_id) = prev_commit {
            let p = self.peek_commit(&old_id);
            let p = if let Some(p) = p {
                p
            } else {
                return None;
            };
            if let RepoFileType::Delete = p.get_type(0x05) {
                // The predecessor was deleted: start a fresh chain.
                return self.create_file_commit(None, name, data);
            }
            let (old_name, od) = self.build_file(old_id);
            let same_name = bytes_eq(&old_name, name);
            if new_hash.equal_224(&old_id) && same_name {
                // Nothing changed: the predecessor stands.
                return Some(old_id);
            }
            proof {
                need_resize = od@.len() != data@.len();
            }
            old_data = od;
            rename = if same_name {
                None
            } else {
                Some(clone_bytes(name))
            };
            prev_com_id = old_id;
            is_new = false;
        }
        let ghost renamed = rename is Some;

        let mut content: Vec<RepoFileType> = Vec::new();
        if is_new {
            let ghost pre = content.deep_view();
            content.push(RepoFileType::NewFile);
            proof {
                assert(content.deep_view() =~~= pre.push(AspectV::NewFile));
            }
        }
        if old_data.len() != data.len() {
            let ghost pre = content.deep_view();
            content.push(RepoFileType::Resize(data.len() as u64));
            proof {
                assert(content.deep_view() =~~= pre.push(AspectV::Resize(data@.len() as u64)));
            }
        }
        if let Some(new_name) = rename {
            let ghost pre = content.deep_view();
            let ghost nv = new_name@;
            content.push(RepoFileType::Rename(new_name));
            proof {
                assert(content.deep_view() =~~= pre.push(AspectV::Rename(nv)));
            }
        }
        let edit = crate::delta::generate_file_instructions(old_data, clone_bytes(data));
        proof {
            assert forall|i: int| 0 <= i < content.deep_view().len() implies ((
            #[trigger] content.deep_view()[i]) is NewFile || content.deep_view()[i] is Resize
                || content.deep_view()[i] is Rename) by {}
            lemma_content_psize_ok(content.deep_view(), edit@);
        }
        let ghost pre_edit = content.deep_view();
        let ghost editv = edit@;
        content.push(RepoFileType::Edit(
            if let RepoFileType::Edit(ins, _p) = &edit {
                crate::record::clone_instructions(ins)
            } else {
                Vec::new()
            },
            if let RepoFileType::Edit(_ins, p) = &edit {
                *p
            } else {
                1
            },
        ));
        proof {
            assert(content.deep_view() =~~= pre_edit.push(editv));
            assert(content.deep_view() =~~= spec_file_commit_content(
                is_new,
                need_resize,
                renamed,
                name@,
                data@.len() as u64,
                editv->Edit_0,
                editv->Edit_1,
            ));
        }

        let ghost pre_free = *self;
        let id = self.get_free_commit_id(&new_hash);
        proof {
            assert(!self.lookup_ok(id@) || id@[0] == 255);
            assert(pre_free.lookup_ok(id@) == old(self).lookup_ok(id@));
            assert(self.lookup_ok(id@) == pre_free.lookup_ok(id@));
        }
        let repo_file = RepoFile::new(0, hex_name_of(&id), content, prev_com_id, U232::new());
        proof {
            assert(repo_file@.content == pre_edit.push(editv));
            assert(spec_get_type_edit_psize_ok(repo_file@));
        }
        let ghost m2 = *self;
        let rid = self.insert_commit(repo_file, id);
        proof {
            assert forall|x: Seq<u8>| x != rid@ implies #[trigger] self.lookup_ok(x) == old(
                self,
            ).lookup_ok(x) && (self.lookup_ok(x) ==> self.lookup(x) == old(self).lookup(x)) by {
                assert(pre_free.lookup_ok(x) == old(self).lookup_ok(x) && (pre_free.lookup_ok(x)
                    ==> pre_free.lookup(x) == old(self).lookup(x)));
                assert(m2.lookup_ok(x) == pre_free.lookup_ok(x) && (m2.lookup_ok(x)
                    ==> m2.lookup(x) == pre_free.lookup(x)));
                assert(self.lookup_ok(x) == m2.lookup_ok(x) && (self.lookup_ok(x)
                    ==> self.lookup(x) == m2.lookup(x)));
            }
            lemma_monotone_trans(*old(self), m2, *self);
        }
        Some(rid)
    }
}

/// The aspect list of a file commit record: the origin mark on a fresh
/// chain, a resize when the size moved, a rename when the name moved, and
/// the edit script, in encode order.
pub open spec fn spec_file_commit_content(
    fresh: bool,
    resized: bool,
    renamed: bool,
    nm: Seq<u8>,
    sz: u64,
    ins: Seq<crate::record::InstructionV>,
    ps: int,
) -> Seq<AspectV> {
    (if fresh {
        seq![AspectV::NewFile]
    } else {
        Seq::<AspectV>::empty()
    }) + (if resized {
        seq![AspectV::Resize(sz)]
    } else {
        Seq::<AspectV>::empty()
    }) + (if renamed {
        seq![AspectV::Rename(nm)]
    } else {
        Seq::<AspectV>::empty()
    }) + seq![AspectV::Edit(ins, ps)]
}

/// A content list of origin, resize and rename aspects followed by one
/// parsed edit keeps the encoder's pointer-size bound, as long as the
/// edit itself does.
proof fn lemma_content_psize_ok(c: Seq<AspectV>, edit: AspectV)
    requires
        forall|i: int|
            0 <= i < c.len() ==> ((#[trigger] c[i]) is NewFile || c[i] is Resize || c[i]
                is Rename),
        edit is Edit ==> 0 <= edit->Edit_1 <= 8,
    ensures
        edit is Edit && 0 <= edit->Edit_1 <= 8 ==> spec_get_type_edit_psize_ok_content(
            c.push(edit),
        ),
{
    lemma_get_type_pushed_only(c, edit, 0x02);
}

/// When no element of `c` carries the tag, a lookup on `c` with the
/// element appended finds the appended element or nothing.
proof fn lemma_get_type_pushed_only(c: Seq<AspectV>, x: AspectV, typ: u8)
    requires
        forall|i: int| 0 <= i < c.len() ==> crate::record::spec_type_code(#[trigger] c[i]) != typ,
    ensures
        crate::record::spec_type_code(x) == typ ==> spec_get_type(c.push(x), typ) == x,
        crate::record::spec_type_code(x) != typ ==> spec_get_type(c.push(x), typ)
            is Missing,
    decreases c.len(),
{
    let p = c.push(x);
    if c.len() == 0 {
        assert(p[0] == x);
        assert(p.drop_first() =~= Seq::<AspectV>::empty());
        assert(spec_get_type(p.drop_first(), typ) is Missing);
    } else {
        assert(p[0] == c[0]);
        assert(p.drop_first() =~= c.drop_first().push(x));
        assert forall|i: int| 0 <= i < c.drop_first().len() implies crate::record::spec_type_code(
            #[trigger] c.drop_first()[i],
        ) != typ by {
            assert(c.drop_first()[i] == c[i + 1]);
        }
        lemma_get_type_pushed_only(c.drop_first(), x, typ);
    }
}

/// The pointer-size bound stated over a content list directly.
pub open spec fn spec_get_type_edit_psize_ok_content(c: Seq<AspectV>) -> bool {
    spec_get_type(c, 0x02) is Edit ==> 0 <= spec_get_type(c, 0x02)->Edit_1 <= 8
}

impl StorageRepo {
    /// Commits one folder. With a predecessor, old children are matched
    /// to new entries by name first, the reconciler pairs the leftovers,
    /// and vanished children end in delete commits; a folder whose
    /// children all came through unchanged is a no-op that hands the
    /// predecessor back. The folder's identifier hashes the concatenated
    /// child identifiers.
    pub fn create_folder_commit(
        &mut self,
        prev_commit: Option<U232>,
        node: &WorkNode,
        is_root: bool,
    ) -> (r: Option<U232>)
        requires
            node matches WorkNode::Folder { .. },
        ensures
            r is Some ==> final(self).lookup_ok(r->0@),
            // A folder with no predecessor and no entries always commits.
            (prev_commit is None && node->Folder_entries@.len() == 0) ==> r is Some,
            // Either the unchanged predecessor comes back, or the new
            // record lists its children and its identifier's digest part
            // hashes exactly their concatenation — which makes the folder
            // identifier a function of the ordered child list.
            r is Some ==> ((prev_commit matches Option::Some(p) && r == Option::Some(p)) || ({
                let rec = final(self).lookup(r->0@);
                &&& aspect_of(rec, 0x0F) is Folder
                &&& r->0@.subrange(1, 29) == spec_hash_cid(
                    crate::record_bytes::spec_encode_cids(aspect_of(rec, 0x0F)->Folder_0, 0),
                ).subrange(1, 29)
            })),
            // A fresh folder of files within the size bound always
            // commits.
            (prev_commit is None && (forall|i: int|
                0 <= i < node->Folder_entries@.len() ==> ((#[trigger] node->Folder_entries@[i])
                    is File && node->Folder_entries@[i]->File_data@.len() + 17
                    < usize::MAX))) ==> r is Some,
            // A fresh folder record lists one child per entry, in entry
            // order; each file child's identifier carries the digest of
            // that entry's bytes.
            (prev_commit is None && r is Some) ==> ({
                let rec = final(self).lookup(r->0@);
                let kids = aspect_of(rec, 0x0F)->Folder_0;
                &&& kids.len() == node->Folder_entries@.len()
                &&& (forall|i: int|
                    (0 <= i < kids.len() && (#[trigger] node->Folder_entries@[i]) is File)
                        ==> kids[i].subrange(1, 29) == spec_hash_cid(
                        node->Folder_entries@[i]->File_data@,
                    ).subrange(1, 29))
            }),
            // No record ever vanishes; only new identifiers are added.
            spec_lookups_monotone(*old(self), *final(self)),
            final(self).folder@ == old(self).folder@,
            final(self).header@ == old(self).header@,
            final(self).branches.deep_view() == old(self).branches.deep_view(),
        decreases node, 0int, (if prev_commit is Some {
            1int
        } else {
            0int
        }),
    {
        let (name, entries) = match node {
            WorkNode::Folder { name, entries } => (name, entries),
            WorkNode::File { .. } => {
                return None;
            },
        };

        let mut repo_file_type: Vec<RepoFileType> = Vec::new();
        let mut commits: Vec<U232> = Vec::new();
        let mut appended: Vec<u8> = Vec::new();
        proof {
            assert(appended@ =~= crate::record_bytes::spec_encode_cids(commits.deep_view(), 0));
        }
        let mut final_prev_commit = U232::new();

        proof {
            assert(spec_lookups_monotone(*old(self), *self));
        }
        if let Some(prev_id) = prev_commit {
            final_prev_commit = prev_id;

            let ghost pre_c = *self;
            let history = self.get_commit_chain(prev_id);
            proof {
                lemma_monotone_trans(*old(self), pre_c, *self);
            }
            if history.len() == 0 {
                return None;
            }
            let prev_is_delete = matches!(history[0].get_type(0x05), RepoFileType::Delete);
            if prev_is_delete {
                // The predecessor was deleted: start from scratch.
                return self.create_folder_commit(None, node, is_root);
            }

            // The folder's recorded name, for rename detection.
            let mut old_name: Option<Vec<u8>> = None;
            let mut hi: usize = 0;
            while hi < history.len()
                invariant
                    hi <= history@.len(),
                decreases history@.len() - hi,
            {
                if let RepoFileType::NewFolder(new_folder) = history[hi].get_type(0x0D) {
                    old_name = Some(clone_bytes(new_folder));
                    break ;
                }
                hi = hi + 1;
            }
            if let Some(old) = old_name {
                if !bytes_eq(&old, name) && !is_root {
                    repo_file_type.push(RepoFileType::NewFolder(clone_bytes(name)));
                }
            } else {
                return None;
            }

            let ghost pre_s = *self;
            let old_subs = crate::reconcile::get_old_sub_info(self, prev_id);
            proof {
                lemma_monotone_trans(*old(self), pre_s, *self);
            }
            let mut old_sub_commits = if let Some(data) = old_subs {
                data
            } else {
                return None;
            };

            // Which new entries are still unmatched, by index.
            let mut remaining: Vec<usize> = Vec::new();
            let mut ei: usize = 0;
            while ei < entries.len()
                invariant
                    ei <= entries@.len(),
                    forall|k: int| 0 <= k < remaining@.len() ==> (#[trigger] remaining@[k])
                        < entries@.len(),
                decreases entries@.len() - ei,
            {
                remaining.push(ei);
                ei = ei + 1;
            }

            let mut left_over_commits: Vec<crate::reconcile::OldSub> = Vec::new();
            let mut changed = false;

            // Clean matches by name, walking old children newest-first.
            while old_sub_commits.len() > 0
                invariant
                    prev_commit is Some,
                    node matches WorkNode::Folder { .. },
                    node->Folder_entries == *entries,
                    spec_lookups_monotone(*old(self), *self),
                    self.folder@ == old(self).folder@,
                    self.header@ == old(self).header@,
                    self.branches.deep_view() == old(self).branches.deep_view(),
                    forall|k: int| 0 <= k < remaining@.len() ==> (#[trigger] remaining@[k])
                        < entries@.len(),
                    appended@ == crate::record_bytes::spec_encode_cids(commits.deep_view(), 0),
                decreases old_sub_commits@.len(),
            {
                let sub = if let Some(s) = old_sub_commits.pop() {
                    s
                } else {
                    break ;
                };
                let mut sub_commit: Option<U232> = None;
                let mut matched_at: Option<usize> = None;
                let mut ri: usize = 0;
                while ri < remaining.len()
                    invariant_except_break
                        matched_at is None,
                        sub_commit is None,
                    invariant
                        prev_commit is Some,
                        node matches WorkNode::Folder { .. },
                        node->Folder_entries == *entries,
                        spec_lookups_monotone(*old(self), *self),
                        self.folder@ == old(self).folder@,
                        self.header@ == old(self).header@,
                        self.branches.deep_view() == old(self).branches.deep_view(),
                        ri <= remaining@.len(),
                        forall|k: int| 0 <= k < remaining@.len() ==> (#[trigger] remaining@[k])
                            < entries@.len(),
                        matched_at matches Option::Some(m) ==> m < remaining@.len(),
                    ensures
                        spec_lookups_monotone(*old(self), *self),
                        self.folder@ == old(self).folder@,
                        self.header@ == old(self).header@,
                        self.branches.deep_view() == old(self).branches.deep_view(),
                        matched_at matches Option::Some(m) ==> m < remaining@.len(),
                    decreases remaining@.len() - ri,
                {
                    let j = remaining[ri];
                    let item = &entries[j];
                    proof {
                        vstd::std_specs::vec::axiom_vec_index_decreases(*entries, j as int);
                        assert(decreases_to!(*node => node->Folder_entries));
                        assert(decreases_to!(*node => entries[j as int]));
                    }
                    if bytes_eq(item.name(), &sub.name) {
                        match item {
                            WorkNode::Folder { .. } => {
                                if sub.is_folder {
                                    let ghost pre = *self;
                                    sub_commit = self.create_folder_commit(
                                        Some(sub.id),
                                        item,
                                        false,
                                    );
                                    proof {
                                        lemma_monotone_trans(*old(self), pre, *self);
                                    }
                                    if sub_commit.is_none() {
                                        return None;
                                    }
                                    matched_at = Some(ri);
                                }
                            },
                            WorkNode::File { name: fname, data } => {
                                if !sub.is_folder {
                                    let ghost pre = *self;
                                    sub_commit = self.create_file_commit(
                                        Some(sub.id),
                                        fname,
                                        data,
                                    );
                                    proof {
                                        lemma_monotone_trans(*old(self), pre, *self);
                                    }
                                    if sub_commit.is_none() {
                                        return None;
                                    }
                                    matched_at = Some(ri);
                                }
                            },
                        }
                        break ;
                    }
                    ri = ri + 1;
                }

                if let Some(commit) = sub_commit {
                    if !commit.eq(&sub.id) {
                        changed = true;
                    }
                    let ghost pre_ids = commits.deep_view();
                    let mut cb = vstd::slice::slice_to_vec(commit.to_be_bytes());
                    appended.append(&mut cb);
                    commits.push(commit);
                    proof {
                        assert(commits.deep_view() =~~= pre_ids.push(commit@));
                        lemma_encode_cids_snoc(pre_ids, commit@);
                    }
                    if let Some(m) = matched_at {
                        remaining.remove(m);
                    }
                } else {
                    left_over_commits.push(sub);
                }
            }

            if left_over_commits.len() == 0 && remaining.len() == 0 {
                if !changed && repo_file_type.len() == 0 {
                    // Perfect matches only and no rename: a no-op.
                    let ghost pre = *self;
                    let recheck = self.get_commit(prev_id);
                    proof {
                        lemma_monotone_trans(*old(self), pre, *self);
                    }
                    if recheck.is_some() {
                        return Some(prev_id);
                    }
                    return None;
                }
            } else {
                // Reconcile the leftovers.
                let mut ri: usize = 0;
                while ri < remaining.len()
                    invariant
                        prev_commit is Some,
                        node matches WorkNode::Folder { .. },
                        node->Folder_entries == *entries,
                        spec_lookups_monotone(*old(self), *self),
                        self.folder@ == old(self).folder@,
                        self.header@ == old(self).header@,
                        self.branches.deep_view() == old(self).branches.deep_view(),
                        forall|k: int| 0 <= k < remaining@.len() ==> (#[trigger] remaining@[k])
                            < entries@.len(),
                        ri <= remaining@.len(),
                        appended@ == crate::record_bytes::spec_encode_cids(commits.deep_view(), 0),
                    decreases remaining@.len() - ri,
                {
                    let j = remaining[ri];
                    let item = &entries[j];
                    proof {
                        vstd::std_specs::vec::axiom_vec_index_decreases(*entries, j as int);
                        assert(decreases_to!(*node => node->Folder_entries));
                        assert(decreases_to!(*node => entries[j as int]));
                    }
                    let commit_to_add: Option<U232> = match item {
                        WorkNode::File { name: fname, data } => {
                            let ghost pre_p = *self;
                            let res = crate::reconcile::process_leftover_file(
                                self,
                                &left_over_commits,
                                data,
                            );
                            proof {
                                lemma_monotone_trans(*old(self), pre_p, *self);
                            }
                            let ghost pre = *self;
                            let c = match res {
                                Ok(index) => {
                                    let commit = left_over_commits[index].id;
                                    left_over_commits.remove(index);
                                    self.create_file_commit(Some(commit), fname, data)
                                },
                                Err(fine) => {
                                    if fine {
                                        self.create_file_commit(None, fname, data)
                                    } else {
                                        return None;
                                    }
                                },
                            };
                            proof {
                                lemma_monotone_trans(*old(self), pre, *self);
                            }
                            c
                        },
                        WorkNode::Folder { .. } => {
                            let ghost pre_p = *self;
                            let res = crate::reconcile::process_leftover_folder(
                                self,
                                &left_over_commits,
                                match item {
                                    WorkNode::Folder { entries: es, .. } => es,
                                    WorkNode::File { .. } => {
                                        return None;
                                    },
                                },
                            );
                            proof {
                                lemma_monotone_trans(*old(self), pre_p, *self);
                            }
                            let ghost pre = *self;
                            let c = match res {
                                Ok(index) => {
                                    let commit = left_over_commits[index].id;
                                    left_over_commits.remove(index);
                                    self.create_folder_commit(Some(commit), item, false)
                                },
                                Err(fine) => {
                                    if fine {
                                        self.create_folder_commit(None, item, false)
                                    } else {
                                        return None;
                                    }
                                },
                            };
                            proof {
                                lemma_monotone_trans(*old(self), pre, *self);
                            }
                            c
                        },
                    };
                    if let Some(commit) = commit_to_add {
                        let ghost pre_ids = commits.deep_view();
                        let mut cb = vstd::slice::slice_to_vec(commit.to_be_bytes());
                        appended.append(&mut cb);
                        commits.push(commit);
                        proof {
                            assert(commits.deep_view() =~~= pre_ids.push(commit@));
                            lemma_encode_cids_snoc(pre_ids, commit@);
                        }
                    }
                    ri = ri + 1;
                }

                // Vanished old children end in delete commits.
                let mut li: usize = 0;
                while li < left_over_commits.len()
                    invariant
                        prev_commit is Some,
                        li <= left_over_commits@.len(),
                        spec_lookups_monotone(*old(self), *self),
                        self.folder@ == old(self).folder@,
                        self.header@ == old(self).header@,
                        self.branches.deep_view() == old(self).branches.deep_view(),
                        appended@ == crate::record_bytes::spec_encode_cids(commits.deep_view(), 0),
                    decreases left_over_commits@.len() - li,
                {
                    let ghost pre = *self;
                    let commit = self.create_delete_commit(left_over_commits[li].id);
                    proof {
                        lemma_monotone_trans(*old(self), pre, *self);
                    }
                    let ghost pre_ids = commits.deep_view();
                    let mut cb = vstd::slice::slice_to_vec(commit.to_be_bytes());
                    appended.append(&mut cb);
                    commits.push(commit);
                    proof {
                        assert(commits.deep_view() =~~= pre_ids.push(commit@));
                        lemma_encode_cids_snoc(pre_ids, commit@);
                    }
                    li = li + 1;
                }
            }
        } else {
            // A fresh folder: commit every entry from scratch.
            let mut ei: usize = 0;
            while ei < entries.len()
                invariant
                    node matches WorkNode::Folder { .. },
                    node->Folder_entries == *entries,
                    spec_lookups_monotone(*old(self), *self),
                    self.folder@ == old(self).folder@,
                    self.header@ == old(self).header@,
                    self.branches.deep_view() == old(self).branches.deep_view(),
                    ei <= entries@.len(),
                    commits.deep_view().len() == ei,
                    forall|i: int|
                        (0 <= i < ei && (#[trigger] entries@[i]) is File)
                            ==> commits.deep_view()[i].subrange(1, 29) == spec_hash_cid(
                            entries@[i]->File_data@,
                        ).subrange(1, 29),
                    appended@ == crate::record_bytes::spec_encode_cids(commits.deep_view(), 0),
                decreases entries@.len() - ei,
            {
                let item = &entries[ei];
                proof {
                    vstd::std_specs::vec::axiom_vec_index_decreases(*entries, ei as int);
                    assert(decreases_to!(*node => node->Folder_entries));
                    assert(decreases_to!(*node => entries[ei as int]));
                }
                let ghost pre = *self;
                let res: Option<U232> = match item {
                    WorkNode::File { name: fname, data } => self.create_file_commit(
                        None,
                        fname,
                        data,
                    ),
                    WorkNode::Folder { .. } => self.create_folder_commit(None, item, false),
                };
                proof {
                    lemma_monotone_trans(*old(self), pre, *self);
                }
                if let Some(com) = res {
                    let ghost pre_ids = commits.deep_view();
                    let mut cb = vstd::slice::slice_to_vec(com.to_be_bytes());
                    appended.append(&mut cb);
                    commits.push(com);
                    proof {
                        assert(commits.deep_view() =~~= pre_ids.push(com@));
                        lemma_encode_cids_snoc(pre_ids, com@);
                    }
                } else {
                    proof {
                        // Under the all-files hypothesis every entry
                        // commits, so this exit is unreachable there.
                        if forall|i: int|
                            0 <= i < entries@.len() ==> ((#[trigger] entries@[i]) is File
                                && entries@[i]->File_data@.len() + 17 < usize::MAX) {
                            assert(entries@[ei as int] is File && entries@[
                                ei as int
                            ]->File_data@.len() + 17 < usize::MAX);
                            assert(false);
                        }
                    }
                    return None;
                }
                ei = ei + 1;
            }
            let fresh_name: Vec<u8> = if is_root {
                Vec::new()
            } else {
                clone_bytes(name)
            };
            repo_file_type.push(RepoFileType::NewFolder(fresh_name));
        }

        // The folder's identifier hashes the child identifiers.
        let content_hash = crate::hashing::hash_data(appended.as_slice());
        let ghost pre_free = *self;
        let folder_hash = self.get_free_commit_id(&content_hash);
        proof {
            lemma_monotone_trans(*old(self), pre_free, *self);
        }
        proof {
            assert forall|i: int| 0 <= i < repo_file_type.deep_view().len() implies !((
            #[trigger] repo_file_type.deep_view()[i]) is Edit) && !(repo_file_type.deep_view()[i]
                is EditNotProcessed) by {}
        }
        let ghost pre_f = repo_file_type.deep_view();
        let ghost idsv = commits.deep_view();
        repo_file_type.push(RepoFileType::Folder(commits));
        proof {
            assert(repo_file_type.deep_view() =~~= pre_f.push(AspectV::Folder(idsv)));
            assert forall|i: int| 0 <= i < repo_file_type.deep_view().len() implies !((
            #[trigger] repo_file_type.deep_view()[i]) is Edit) by {}
            crate::record_bytes::lemma_get_type_no_edit(repo_file_type.deep_view());
            assert forall|i: int| 0 <= i < pre_f.len() implies crate::record::spec_type_code(
                #[trigger] pre_f[i],
            ) != 0x0F by {}
            lemma_get_type_pushed_only(pre_f, AspectV::Folder(idsv), 0x0F);
        }
        let record = RepoFile::new(
            0,
            hex_name_of(&folder_hash),
            repo_file_type,
            final_prev_commit,
            U232::new(),
        );
        proof {
            assert(spec_get_type(record@.content, 0x0F) == AspectV::Folder(idsv));
        }
        let ghost pre_ins = *self;
        let rid = self.insert_commit(record, folder_hash);
        proof {
            lemma_monotone_trans(*old(self), pre_ins, *self);
        }
        Some(rid)
    }

    /// Commits a working tree against an optional predecessor: a missing
    /// tree on an existing predecessor is a delete, a file goes to the
    /// file path, anything else to the folder path. The zero identifier
    /// counts as no predecessor.
    pub fn create_commit(
        &mut self,
        prev_commit_id: Option<U232>,
        tree: Option<&WorkNode>,
        is_root: bool,
    ) -> (r: Option<U232>)
        ensures
            r is Some ==> final(self).lookup_ok(r->0@),
            // A missing tree with nothing to delete commits nothing.
            (tree is None && (prev_commit_id is None || prev_commit_id->0@
                == crate::cid::zero_cid())) ==> r is None,
            // A missing tree over a live predecessor yields its delete
            // record, semantically equal to the predecessor's identifier.
            (prev_commit_id matches Option::Some(p) && tree is None && p@
                != crate::cid::zero_cid() && old(self).lookup_ok(p@)) ==> ({
                &&& r is Some
                &&& r->0@.subrange(1, 29) == prev_commit_id->0@.subrange(1, 29)
                &&& aspect_of(final(self).lookup(r->0@), 0x05) is Delete
                &&& final(self).lookup(r->0@).previous_commit == prev_commit_id->0@
            }),
            // A file commits whenever its predecessor, if any, is live.
            (tree matches Option::Some(n) && n matches WorkNode::File { name, data }
                && data@.len() + 17 < usize::MAX && (prev_commit_id is None
                || prev_commit_id->0@ == crate::cid::zero_cid() || old(self).lookup_ok(
                prev_commit_id->0@,
            ))) ==> r is Some && r->0@.subrange(1, 29) == spec_hash_cid(
                tree->0->File_data@,
            ).subrange(1, 29),
            // No record ever vanishes, and for file and delete commits
            // only the new record's identifier is touched.
            spec_lookups_monotone(*old(self), *final(self)),
            final(self).folder@ == old(self).folder@,
            final(self).header@ == old(self).header@,
            final(self).branches.deep_view() == old(self).branches.deep_view(),
            (r is Some && !(tree matches Option::Some(n) && n matches WorkNode::Folder { .. }))
                ==> (forall|x: Seq<u8>|
                x != r->0@ ==> #[trigger] final(self).lookup_ok(x) == old(self).lookup_ok(x) && (
                final(self).lookup_ok(x) ==> final(self).lookup(x) == old(self).lookup(x))),
    {
        let ghost pre_norm = *self;
        let prev_commit_id: Option<U232> = if let Some(prev) = prev_commit_id {
            if prev.eq(&U232::new()) {
                None
            } else {
                if self.get_commit(prev).is_none() {
                    return None;
                }
                Some(prev)
            }
        } else {
            None
        };
        proof {
            assert forall|x: Seq<u8>| #[trigger] self.lookup_ok(x) == old(self).lookup_ok(x) && (
            self.lookup_ok(x) ==> self.lookup(x) == old(self).lookup(x)) by {
                assert(pre_norm == *old(self));
            }
            assert(spec_lookups_monotone(*old(self), *self));
        }

        let ghost mid = *self;
        if let Some(node) = tree {
            match node {
                WorkNode::File { name, data } => {
                    let r = self.create_file_commit(prev_commit_id, name, data);
                    proof {
                        lemma_monotone_trans(*old(self), mid, *self);
                        if r is Some {
                            assert forall|x: Seq<u8>| x != r->0@ implies #[trigger] self.lookup_ok(
                                x,
                            ) == old(self).lookup_ok(x) && (self.lookup_ok(x) ==> self.lookup(x)
                                == old(self).lookup(x)) by {
                                assert(mid.lookup_ok(x) == old(self).lookup_ok(x) && (
                                mid.lookup_ok(x) ==> mid.lookup(x) == old(self).lookup(x)));
                            }
                        }
                    }
                    r
                },
                WorkNode::Folder { .. } => {
                    let r = self.create_folder_commit(prev_commit_id, node, is_root);
                    proof {
                        lemma_monotone_trans(*old(self), mid, *self);
                    }
                    r
                },
            }
        } else {
            if let Some(prev) = prev_commit_id {
                let r = self.create_delete_commit(prev);
                proof {
                    lemma_monotone_trans(*old(self), mid, *self);
                    assert forall|x: Seq<u8>| x != r@ implies #[trigger] self.lookup_ok(x) == old(
                        self,
                    ).lookup_ok(x) && (self.lookup_ok(x) ==> self.lookup(x) == old(self).lookup(
                        x,
                    )) by {
                        assert(mid.lookup_ok(x) == old(self).lookup_ok(x) && (mid.lookup_ok(x)
                            ==> mid.lookup(x) == old(self).lookup(x)));
                    }
                }
                Some(r)
            } else {
                // Nothing to commit.
                None
            }
        }
    }

    /// Rebuilds the working tree a commit describes. A missing commit,
    /// or a delete commit — whose reconstruction is a no-op — yields
    /// nothing; a file commit yields the file its chain assembles to; a
    /// folder commit yields a folder named from its origin record, with
    /// the rebuilt live children.
    pub fn build_commit(&mut self, commit_id: U232) -> (r: Option<WorkNode>)
        ensures
            final(self).same_but_cache(old(self)),
            forall|x: Seq<u8>| #[trigger]
                final(self).lookup_ok(x) == old(self).lookup_ok(x) && (final(self).lookup_ok(x)
                    ==> final(self).lookup(x) == old(self).lookup(x)),
            !old(self).lookup_ok(commit_id@) ==> r is None,
            old(self).lookup_ok(commit_id@) && aspect_of(old(self).lookup(commit_id@), 0x05)
                is Delete ==> r is None,
            (old(self).lookup_ok(commit_id@) && !(aspect_of(old(self).lookup(commit_id@), 0x05)
                is Delete) && !(aspect_of(old(self).lookup(commit_id@), 0x0F) is Folder)) ==> ({
                let c = spec_chain(*old(self), commit_id@, spec_chain_bound(*old(self)));
                r matches Option::Some(n) && (n matches WorkNode::File { name, data } && name@
                    == spec_cur_name(c, 0, spec_cut_len(c)) && data@ == spec_assemble_bytes(c))
            }),
            (old(self).lookup_ok(commit_id@) && !(aspect_of(old(self).lookup(commit_id@), 0x05)
                is Delete) && aspect_of(old(self).lookup(commit_id@), 0x0F) is Folder) ==> ({
                let c = spec_chain(*old(self), commit_id@, spec_chain_bound(*old(self)));
                r matches Option::Some(n) && (n matches WorkNode::Folder { name, .. } && name@
                    == spec_folder_name(c, 0))
            }),
    {
        let a = self.commits.len();
        let b = self.store.files.len();
        let fuel = if a <= usize::MAX - 1 && b <= usize::MAX - 1 - a {
            a + b + 1
        } else {
            usize::MAX
        };
        self.build_commit_fueled(commit_id, fuel)
    }

    /// Rebuilds one commit, folder or file, within a recursion budget.
    fn build_commit_fueled(&mut self, commit_id: U232, fuel: usize) -> (r: Option<WorkNode>)
        ensures
            final(self).same_but_cache(old(self)),
            forall|x: Seq<u8>| #[trigger]
                final(self).lookup_ok(x) == old(self).lookup_ok(x) && (final(self).lookup_ok(x)
                    ==> final(self).lookup(x) == old(self).lookup(x)),
            fuel >= 1 && !old(self).lookup_ok(commit_id@) ==> r is None,
            fuel >= 1 && old(self).lookup_ok(commit_id@) && aspect_of(
                old(self).lookup(commit_id@),
                0x05,
            ) is Delete ==> r is None,
            (fuel >= 1 && old(self).lookup_ok(commit_id@) && !(aspect_of(
                old(self).lookup(commit_id@),
                0x05,
            ) is Delete) && !(aspect_of(old(self).lookup(commit_id@), 0x0F) is Folder)) ==> ({
                let c = spec_chain(*old(self), commit_id@, spec_chain_bound(*old(self)));
                r matches Option::Some(n) && (n matches WorkNode::File { name, data } && name@
                    == spec_cur_name(c, 0, spec_cut_len(c)) && data@ == spec_assemble_bytes(c))
            }),
            (fuel >= 1 && old(self).lookup_ok(commit_id@) && !(aspect_of(
                old(self).lookup(commit_id@),
                0x05,
            ) is Delete) && aspect_of(old(self).lookup(commit_id@), 0x0F) is Folder) ==> ({
                let c = spec_chain(*old(self), commit_id@, spec_chain_bound(*old(self)));
                r matches Option::Some(n) && (n matches WorkNode::Folder { name, .. } && name@
                    == spec_folder_name(c, 0))
            }),
        decreases fuel, 1int,
    {
        if fuel == 0 {
            return None;
        }
        let repo_file = self.peek_commit(&commit_id);
        if let Some(rf) = repo_file {
            if let RepoFileType::Delete = rf.get_type(0x05) {
                // Reconstruction of a delete commit is a no-op.
                return None;
            }
            let is_folder = matches!(rf.get_type(0x0F), RepoFileType::Folder(..));
            if is_folder {
                self.build_folder_fueled(commit_id, fuel)
            } else {
                let (fname, data) = self.build_file(commit_id);
                Some(WorkNode::File { name: fname, data })
            }
        } else {
            None
        }
    }

    /// Rebuilds a folder commit: the name comes from the nearest origin
    /// record, the children from the newest folder aspect; children whose
    /// chains end in a delete are left out.
    fn build_folder_fueled(&mut self, commit: U232, fuel: usize) -> (r: Option<WorkNode>)
        ensures
            final(self).same_but_cache(old(self)),
            forall|x: Seq<u8>| #[trigger]
                final(self).lookup_ok(x) == old(self).lookup_ok(x) && (final(self).lookup_ok(x)
                    ==> final(self).lookup(x) == old(self).lookup(x)),
            (fuel >= 1 && old(self).lookup_ok(commit@) && aspect_of(
                old(self).lookup(commit@),
                0x0F,
            ) is Folder) ==> ({
                let c = spec_chain(*old(self), commit@, spec_chain_bound(*old(self)));
                r matches Option::Some(n) && (n matches WorkNode::Folder { name, .. } && name@
                    == spec_folder_name(c, 0))
            }),
        decreases fuel, 0int,
    {
        if fuel == 0 {
            return None;
        }
        let full_history = self.get_commit_chain(commit);
        let ghost c = spec_chain(*old(self), commit@, spec_chain_bound(*old(self)));
        proof {
            assert(full_history.deep_view() == c);
        }
        if full_history.len() == 0 {
            return None;
        }

        let items: Vec<U232> = if let RepoFileType::Folder(ids) = full_history[0].get_type(
            0x0F,
        ) {
            crate::record::clone_cids(ids)
        } else {
            return None;
        };

        let mut folder_name: Vec<u8> = Vec::new();
        let mut hi: usize = 0;
        proof {
            assert(full_history@[0]@ == c[0]);
        }
        while hi < full_history.len()
            invariant_except_break
                hi <= full_history@.len(),
                full_history.deep_view() == c,
                c.len() == full_history@.len(),
                folder_name@ == Seq::<u8>::empty(),
                spec_folder_name(c, 0) == spec_folder_name(c, hi as int),
            invariant
                hi <= full_history@.len(),
                full_history.deep_view() == c,
                c.len() == full_history@.len(),
            ensures
                folder_name@ == spec_folder_name(c, 0),
            decreases full_history@.len() - hi,
        {
            proof {
                assert(full_history@[hi as int]@ == c[hi as int]);
            }
            if let RepoFileType::NewFolder(nm) = full_history[hi].get_type(0x0D) {
                folder_name = clone_bytes(nm);
                proof {
                    assert(spec_folder_name(c, hi as int) == nm@);
                }
                break ;
            }
            hi = hi + 1;
        }

        let mut children: Vec<WorkNode> = Vec::new();
        let mut ci: usize = 0;
        let ghost pre_loop = *self;
        while ci < items.len()
            invariant
                ci <= items@.len(),
                fuel >= 1,
                self.same_but_cache(old(self)),
                forall|x: Seq<u8>| #[trigger]
                    self.lookup_ok(x) == old(self).lookup_ok(x) && (self.lookup_ok(x)
                        ==> self.lookup(x) == old(self).lookup(x)),
            decreases items@.len() - ci,
        {
            let ghost pre = *self;
            let child = self.build_commit_fueled(items[ci], fuel - 1);
            proof {
                assert forall|x: Seq<u8>| #[trigger] self.lookup_ok(x) == old(self).lookup_ok(x)
                    && (self.lookup_ok(x) ==> self.lookup(x) == old(self).lookup(x)) by {
                    assert(pre.lookup_ok(x) == old(self).lookup_ok(x) && (pre.lookup_ok(x)
                        ==> pre.lookup(x) == old(self).lookup(x)));
                    assert(self.lookup_ok(x) == pre.lookup_ok(x) && (self.lookup_ok(x)
                        ==> self.lookup(x) == pre.lookup(x)));
                }
            }
            if let Some(child_node) = child {
                children.push(child_node);
            }
            ci = ci + 1;
        }
        Some(WorkNode::Folder { name: folder_name, entries: children })
    }
}

/// Opens a repository from a loaded folder image: the header record is
/// read and decoded, and the branches it lists are loaded; commits load
/// lazily on demand.
pub fn read_storage_info(store: RepoStore, folder: Vec<u8>) -> (r: Result<StorageRepo, ()>)
    ensures
        // The repository opens exactly when a decodable header record
        // stands under the header name.
        r is Ok <==> ({
            let hb = store.spec_read(spec_header_name());
            hb is Some && hb->0.len() >= 2 && hb->0.len() + 70 < usize::MAX && aspect_of(
                spec_decode_record(hb->0, spec_header_name()),
                0x00,
            ) is Head
        }),
        r matches Result::Ok(repo) ==> ({
            let hb = store.spec_read(spec_header_name())->0;
            &&& repo.store@ == store@
            &&& repo.folder@ == folder@
            &&& repo.header@ == spec_decode_record(hb, spec_header_name())
            &&& repo.commits@.len() == 0
            &&& repo.branches.deep_view() == spec_load_branches(
                store@,
                spec_header_names(repo.header@),
                0,
            )
        }),
{
    let hname = header_file_name();
    let head_bytes = store.read(&hname);
    if let Some(data) = head_bytes {
        if data.len() >= 2 && data.len() < usize::MAX - 70 {
            let head_file = decode_repo_file(data, hname);
            let is_head = matches!(head_file.get_type(0x00), RepoFileType::Head(..));
            if is_head {
                let mut repo = StorageRepo {
                    folder,
                    header: head_file,
                    branches: Vec::new(),
                    commits: Vec::new(),
                    store,
                };
                repo.read_branches();
                return Ok(repo);
            }
        }
    }
    Err(())
}

/// Creates a fresh repository in an empty folder image: a header record
/// with the display name and no branches is written.
pub fn new_repo(store: RepoStore, folder: Vec<u8>, name: Vec<u8>) -> (r: Result<StorageRepo, ()>)
    ensures
        r is Err <==> store@.len() > 0,
        r matches Result::Ok(repo) ==> ({
            &&& repo.header@.content == seq![
                AspectV::Head(
                    crate::record::HeadV { name: name@, branches: Seq::<Seq<u8>>::empty() },
                ),
            ]
            &&& repo.header@.previous_commit == crate::cid::zero_cid()
            &&& repo.header@.name == spec_header_name()
            &&& aspect_of(repo.header@, 0x00) is Head
            &&& aspect_of(repo.header@, 0x00)->Head_0.name == name@
            &&& aspect_of(repo.header@, 0x00)->Head_0.branches.len() == 0
            &&& repo.store.spec_read(spec_header_name()) == Option::Some(
                spec_record_bytes(repo.header@),
            )
            &&& (forall|o: Seq<u8>|
                o != spec_header_name() ==> #[trigger] repo.store.spec_read(o) is None)
            &&& repo.branches@.len() == 0
            &&& repo.commits@.len() == 0
            &&& repo.folder@ == folder@
        }),
{
    proof {
        assert(store@.len() == store.files@.len());
    }
    if store.files.len() > 0 {
        // Creating a repository over existing content is not intended.
        return Err(());
    }
    let mut store = store;
    let head = Head { name, branches: Vec::new() };
    let ghost hv = head@;
    let mut content: Vec<RepoFileType> = Vec::new();
    content.push(RepoFileType::Head(head));
    let mut header_repo_file = RepoFile::new(
        0,
        header_file_name(),
        content,
        U232::new(),
        U232::new(),
    );
    proof {
        let c = header_repo_file@.content;
        assert(c.len() == 1);
        assert(c[0] is Head);
        assert(c.drop_first() =~= Seq::<AspectV>::empty());
        assert(spec_get_type(c.drop_first(), 0x02) is Missing);
        assert(spec_get_type(c, 0x02) is Missing);
        assert(spec_get_type(c.drop_first(), 0x00) is Missing);
        assert(spec_get_type(c, 0x00) == AspectV::Head(hv));
    }
    let data = header_repo_file.to_bytes();
    let ghost pre_view = header_repo_file@;
    let new_hash = crate::hashing::hash_data(data.as_slice());
    header_repo_file.repo_file_hash = new_hash;
    proof {
        assert(header_repo_file@ =~~= crate::record::RepoFileV {
            repo_file_hash: new_hash@,
            ..pre_view
        });
        crate::record_bytes::lemma_record_bytes_hash_free(pre_view, new_hash@);
        assert(spec_record_bytes(header_repo_file@) == data@);
        assert(header_repo_file@.content =~~= seq![
            AspectV::Head(crate::record::HeadV { name: name@, branches: Seq::<Seq<u8>>::empty() }),
        ]);
    }
    store.write(header_file_name(), data);
    Ok(StorageRepo {
        folder,
        header: header_repo_file,
        branches: Vec::new(),
        commits: Vec::new(),
        store,
    })
}

/// Whether a record marks a chain origin, where timestamps restart.
pub open spec fn spec_is_origin(f: crate::record::RepoFileV) -> bool {
    aspect_of(f, 0x03) is NewFile || aspect_of(f, 0x0D) is NewFolder
}

/// One step of the timestamp sum: a record's metadata adds its delta,
/// an origin record restarts the count first; the sum saturates.
pub open spec fn spec_time_step(f: crate::record::RepoFileV, t: u64) -> u64 {
    if aspect_of(f, 0x10) is CommitInfo {
        let base: u64 = if spec_is_origin(f) {
            0
        } else {
            t
        };
        let ts = aspect_of(f, 0x10)->CommitInfo_0.timestamp;
        if base <= u64::MAX - ts {
            (base + ts) as u64
        } else {
            u64::MAX
        }
    } else {
        t
    }
}

/// The absolute time accumulated from the oldest record up to index `j`
/// of a newest-first chain.
pub open spec fn spec_chain_time(c: Seq<crate::record::RepoFileV>, j: int) -> u64
    decreases c.len() - j,
{
    if j < 0 || j >= c.len() {
        0
    } else {
        spec_time_step(c[j], spec_chain_time(c, j + 1))
    }
}

/// The absolute time accumulated up to, but not including, the newest
/// record's own delta: what its predecessor chain amounts to.
pub open spec fn spec_chain_time_prior(c: Seq<crate::record::RepoFileV>) -> u64 {
    if c.len() == 0 {
        0
    } else if aspect_of(c[0], 0x10) is CommitInfo && spec_is_origin(c[0]) {
        0
    } else {
        spec_chain_time(c, 1)
    }
}

impl StorageRepo {
    /// The commit's metadata with its timestamp resolved to absolute
    /// time: deltas are summed along the chain, restarting at each
    /// origin record.
    pub fn get_commit_info(&mut self, commit_id: U232) -> (r: Option<CommitInfo>)
        ensures
            final(self).same_but_cache(old(self)),
            forall|x: Seq<u8>| #[trigger]
                final(self).lookup_ok(x) == old(self).lookup_ok(x) && (final(self).lookup_ok(x)
                    ==> final(self).lookup(x) == old(self).lookup(x)),
            ({
                let c = spec_chain(*old(self), commit_id@, spec_chain_bound(*old(self)));
                &&& (r is Some <==> c.len() > 0 && aspect_of(c[0], 0x10) is CommitInfo)
                &&& (r matches Option::Some(ci) ==> ({
                    let head = aspect_of(c[0], 0x10)->CommitInfo_0;
                    &&& ci.user_id == head.user_id
                    &&& ci.device_id == head.device_id
                    &&& ci.text@ == head.text
                    &&& ci.timestamp == spec_chain_time(c, 0)
                }))
            }),
    {
        let history = self.get_commit_chain(commit_id);
        let ghost c = spec_chain(*old(self), commit_id@, spec_chain_bound(*old(self)));
        proof {
            assert(history.deep_view() == c);
        }
        if history.len() == 0 {
            return None;
        }

        let mut time: u64 = 0;
        let mut i: usize = history.len();
        while i > 0
            invariant
                i <= history@.len(),
                history.deep_view() == c,
                c.len() == history@.len(),
                time == spec_chain_time(c, i as int),
            decreases i,
        {
            i = i - 1;
            let item = &history[i];
            proof {
                assert(item@ == c[i as int]);
            }
            if let RepoFileType::CommitInfo(info) = item.get_type(0x10) {
                let is_origin = matches!(item.get_type(0x03), RepoFileType::NewFile) || matches!(
                    item.get_type(0x0D),
                    RepoFileType::NewFolder(..),
                );
                if is_origin {
                    time = 0;
                }
                if time <= u64::MAX - info.timestamp {
                    time = time + info.timestamp;
                } else {
                    time = u64::MAX;
                }
            }
        }

        proof {
            assert(history@[0]@ == c[0]);
        }
        if let RepoFileType::CommitInfo(info) = history[0].get_type(0x10) {
            return Some(CommitInfo {
                user_id: info.user_id,
                device_id: info.device_id,
                text: clone_bytes(&info.text),
                timestamp: time,
            });
        }
        None
    }

    /// Replaces a commit's metadata. The stored timestamp becomes the
    /// delta to the accumulated chain time; a time before the
    /// predecessor's is clamped to it. The record keeps its identifier,
    /// so the rewritten bytes replace it in place.
    pub fn set_commit_info(&mut self, commit_id: U232, info: CommitInfo) -> (r: bool)
        ensures
            final(self).folder@ == old(self).folder@,
            final(self).header@ == old(self).header@,
            final(self).branches.deep_view() == old(self).branches.deep_view(),
            // Only the target's record can change.
            forall|x: Seq<u8>|
                x != commit_id@ ==> #[trigger] final(self).lookup_ok(x) == old(self).lookup_ok(x)
                    && (final(self).lookup_ok(x) ==> final(self).lookup(x) == old(self).lookup(
                    x,
                )),
            spec_lookups_monotone(*old(self), *final(self)),
            ({
                let c = spec_chain(*old(self), commit_id@, spec_chain_bound(*old(self)));
                &&& (r <==> c.len() > 0 && c[0].name == spec_hex_name(commit_id@) && (
                spec_get_type(c[0].content, 0x02) is Edit ==> spec_get_type(
                    c[0].content,
                    0x02,
                )->Edit_1 <= 8))
                &&& (r ==> ({
                    let prior = spec_chain_time_prior(c);
                    let delta: u64 = if info.timestamp >= prior {
                        (info.timestamp - prior) as u64
                    } else {
                        0u64
                    };
                    let newci = AspectV::CommitInfo(
                        crate::record::CommitInfoV {
                            user_id: info.user_id,
                            device_id: info.device_id,
                            text: info.text@,
                            timestamp: delta,
                        },
                    );
                    let base = c[0].content;
                    &&& final(self).lookup_ok(commit_id@)
                    &&& ((forall|j: int|
                        0 <= j < base.len() ==> !((#[trigger] base[j]) is CommitInfo)) ==> final(self).lookup(commit_id@).content == base.push(newci))
                    &&& ((exists|j: int| 0 <= j < base.len() && (#[trigger] base[j]) is CommitInfo)
                        ==> (exists|j: int|
                        0 <= j < base.len() && (#[trigger] base[j]) is CommitInfo && (forall|k: int|
                            0 <= k < j ==> !(base[k] is CommitInfo)) && final(self).lookup(
                            commit_id@,
                        ).content == base.remove(j).push(newci)))
                }))
            }),
    {
        let history = self.get_commit_chain(commit_id);
        let ghost c = spec_chain(*old(self), commit_id@, spec_chain_bound(*old(self)));
        proof {
            assert(history.deep_view() == c);
        }
        if history.len() == 0 {
            return false;
        }
        let item = history[0].clone();
        proof {
            assert(history@[0]@ == c[0]);
            assert(item@ == c[0]);
        }

        // The chain time up to the predecessor.
        let mut time: u64 = 0;
        let mut i: usize = history.len();
        while i > 0
            invariant
                0 < history@.len(),
                i <= history@.len(),
                history.deep_view() == c,
                c.len() == history@.len(),
                i > 0 ==> time == spec_chain_time(c, i as int),
                i == 0 ==> time == spec_chain_time_prior(c),
            decreases i,
        {
            i = i - 1;
            let it = &history[i];
            proof {
                assert(it@ == c[i as int]);
            }
            if let RepoFileType::CommitInfo(ci) = it.get_type(0x10) {
                let is_origin = matches!(it.get_type(0x03), RepoFileType::NewFile) || matches!(
                    it.get_type(0x0D),
                    RepoFileType::NewFolder(..),
                );
                if is_origin {
                    time = 0;
                }
                if i != 0 {
                    if time <= u64::MAX - ci.timestamp {
                        time = time + ci.timestamp;
                    } else {
                        time = u64::MAX;
                    }
                }
            }
        }
        let delta: u64 = if info.timestamp >= time {
            info.timestamp - time
        } else {
            0
        };

        // The record must be stored under its identifier's hex name.
        let expected = hex_name_of(&commit_id);
        if !bytes_eq(&item.name, &expected) {
            return false;
        }

        // Swap the metadata aspect out.
        let ghost base = c[0].content;
        let mut content = crate::record::clone_content(&item.content);
        proof {
            assert(content.deep_view() == base);
        }
        let mut index: usize = 0;
        let n = content.len();
        while index < n
            invariant_except_break
                index <= n,
                n == content@.len(),
                content.deep_view() == base,
                forall|k: int| 0 <= k < index ==> !((#[trigger] base[k]) is CommitInfo),
            invariant
                index <= n,
                n == content@.len(),
                content.deep_view() == base,
            ensures
                index < n ==> base[index as int] is CommitInfo && (forall|k: int|
                    0 <= k < index ==> !((#[trigger] base[k]) is CommitInfo)),
                index == n ==> forall|k: int|
                    0 <= k < base.len() ==> !((#[trigger] base[k]) is CommitInfo),
            decreases n - index,
        {
            proof {
                assert(content@[index as int]@ == base[index as int]);
            }
            let is_ci = matches!(&content[index], RepoFileType::CommitInfo(..));
            if is_ci {
                break ;
            }
            index = index + 1;
        }
        let ghost removed_at: Option<int> = if index < content@.len() {
            Option::Some(index as int)
        } else {
            Option::None
        };
        if index != content.len() {
            content.remove(index);
            proof {
                assert(content.deep_view() =~~= base.remove(index as int));
            }
        }
        let ghost mid = content.deep_view();
        content.push(RepoFileType::CommitInfo(CommitInfo {
            user_id: info.user_id,
            device_id: info.device_id,
            text: clone_bytes(&info.text),
            timestamp: delta,
        }));
        let ghost newci = content@.last()@;
        proof {
            assert(content.deep_view() =~~= mid.push(newci));
            assert(newci is CommitInfo);
            if let Option::Some(j) = removed_at {
                lemma_get_type_remove_other(base, j, 0x02);
            }
            lemma_get_type_push_other(mid, newci, 0x02);
        }

        // An edit with an oversized pointer width cannot be re-encoded.
        let probe = item.clone_with_content(content);
        if let RepoFileType::Edit(_ins, psize) = probe.get_type(0x02) {
            if *psize > 8 {
                return false;
            }
        }
        let ghost mid = *self;
        self.insert_commit(probe, commit_id);
        proof {
            assert forall|x: Seq<u8>| x != commit_id@ implies #[trigger] self.lookup_ok(x)
                == old(self).lookup_ok(x) && (self.lookup_ok(x) ==> self.lookup(x) == old(
                self,
            ).lookup(x)) by {
                assert(mid.lookup_ok(x) == old(self).lookup_ok(x) && (mid.lookup_ok(x)
                    ==> mid.lookup(x) == old(self).lookup(x)));
                assert(self.lookup_ok(x) == mid.lookup_ok(x) && (self.lookup_ok(x)
                    ==> self.lookup(x) == mid.lookup(x)));
            }
            lemma_monotone_trans(*old(self), mid, *self);
        }
        true
    }
}

/// Removing an element of another tag leaves a lookup unchanged.
proof fn lemma_get_type_remove_other(c: Seq<AspectV>, j: int, typ: u8)
    requires
        0 <= j < c.len(),
        crate::record::spec_type_code(c[j]) != typ,
    ensures
        spec_get_type(c.remove(j), typ) == spec_get_type(c, typ),
    decreases c.len(),
{
    if j == 0 {
        assert(c.remove(0) =~= c.drop_first());
    } else {
        assert(c.remove(j)[0] == c[0]);
        assert(c.remove(j).drop_first() =~= c.drop_first().remove(j - 1));
        assert(c.drop_first()[j - 1] == c[j]);
        lemma_get_type_remove_other(c.drop_first(), j - 1, typ);
        if crate::record::spec_type_code(c[0]) != typ {
            assert(spec_get_type(c.remove(j), typ) == spec_get_type(
                c.remove(j).drop_first(),
                typ,
            ));
            assert(spec_get_type(c, typ) == spec_get_type(c.drop_first(), typ));
        }
    }
}

/// Appending an element of another tag leaves a lookup unchanged when a
/// match exists, and cannot create one.
proof fn lemma_get_type_push_other(c: Seq<AspectV>, x: AspectV, typ: u8)
    requires
        crate::record::spec_type_code(x) != typ,
    ensures
        spec_get_type(c.push(x), typ) == spec_get_type(c, typ),
    decreases c.len(),
{
    let p = c.push(x);
    if c.len() == 0 {
        assert(p[0] == x);
        assert(p.drop_first() =~= Seq::<AspectV>::empty());
        assert(spec_get_type(p.drop_first(), typ) is Missing);
    } else {
        assert(p[0] == c[0]);
        assert(p.drop_first() =~= c.drop_first().push(x));
        lemma_get_type_push_other(c.drop_first(), x, typ);
    }
}

} // verus!
