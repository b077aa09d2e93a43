//! Cross-cutting laws of the record format, proved once over the spec
//! functions the executable contracts are stated in.

use vstd::prelude::*;
use crate::codec::{spec_vlq_encode, spec_vlq_len};
use crate::record::{AspectV, InstructionV, RepoFileV, aspect_of, spec_get_type};
use crate::record_bytes::{
    encodable_instructions, spec_decode_record, spec_encode_instructions, spec_parse_ins,
    spec_record_bytes, spec_save_slice,
};
use crate::delta::{spec_replay, spec_resize};
use crate::storage::{spec_assemble_bytes, spec_assemble_from, spec_cur_size, spec_cut_len,
    spec_max_size, spec_to_size};

verus! {

/// The shape of the record a first file commit writes: the origin mark,
/// the file's size, its name, and the edit script, in encode order.
pub open spec fn fresh_file_content(
    sz: u64,
    nm: Seq<u8>,
    ins: Seq<InstructionV>,
    ps: int,
) -> Seq<AspectV> {
    seq![
        AspectV::NewFile,
        AspectV::Resize(sz),
        AspectV::Rename(nm),
        AspectV::Edit(ins, ps),
    ]
}

/// Every aspect lookup on a fresh file record, spelled out.
proof fn lemma_fresh_file_aspects(c: Seq<AspectV>, sz: u64, nm: Seq<u8>, ins: Seq<InstructionV>, ps: int)
    requires
        c == fresh_file_content(sz, nm, ins, ps),
    ensures
        spec_get_type(c, 0x00) is Missing,
        spec_get_type(c, 0x01) is Missing,
        spec_get_type(c, 0x05) is Missing,
        spec_get_type(c, 0x10) is Missing,
        spec_get_type(c, 0x0D) is Missing,
        spec_get_type(c, 0x0F) is Missing,
        spec_get_type(c, 0x03) == AspectV::NewFile,
        spec_get_type(c, 0x08) == AspectV::Resize(sz),
        spec_get_type(c, 0x04) == AspectV::Rename(nm),
        spec_get_type(c, 0x02) == AspectV::Edit(ins, ps),
{
    let c1 = c.drop_first();
    let c2 = c1.drop_first();
    let c3 = c2.drop_first();
    let c4 = c3.drop_first();
    assert(c1 =~= seq![AspectV::Resize(sz), AspectV::Rename(nm), AspectV::Edit(ins, ps)]);
    assert(c2 =~= seq![AspectV::Rename(nm), AspectV::Edit(ins, ps)]);
    assert(c3 =~= seq![AspectV::Edit(ins, ps)]);
    assert(c4 =~= Seq::<AspectV>::empty());
    assert(spec_get_type(c4, 0x00) is Missing);
    assert(spec_get_type(c4, 0x01) is Missing);
    assert(spec_get_type(c4, 0x05) is Missing);
    assert(spec_get_type(c4, 0x10) is Missing);
    assert(spec_get_type(c4, 0x0D) is Missing);
    assert(spec_get_type(c4, 0x0F) is Missing);
    assert(spec_get_type(c4, 0x08) is Missing);
    assert(spec_get_type(c4, 0x04) is Missing);
    assert(spec_get_type(c, 0x00) == spec_get_type(c1, 0x00));
    assert(spec_get_type(c1, 0x00) == spec_get_type(c2, 0x00));
    assert(spec_get_type(c2, 0x00) == spec_get_type(c3, 0x00));
    assert(spec_get_type(c3, 0x00) == spec_get_type(c4, 0x00));
    assert(spec_get_type(c, 0x01) == spec_get_type(c1, 0x01));
    assert(spec_get_type(c1, 0x01) == spec_get_type(c2, 0x01));
    assert(spec_get_type(c2, 0x01) == spec_get_type(c3, 0x01));
    assert(spec_get_type(c3, 0x01) == spec_get_type(c4, 0x01));
    assert(spec_get_type(c, 0x05) == spec_get_type(c1, 0x05));
    assert(spec_get_type(c1, 0x05) == spec_get_type(c2, 0x05));
    assert(spec_get_type(c2, 0x05) == spec_get_type(c3, 0x05));
    assert(spec_get_type(c3, 0x05) == spec_get_type(c4, 0x05));
    assert(spec_get_type(c, 0x10) == spec_get_type(c1, 0x10));
    assert(spec_get_type(c1, 0x10) == spec_get_type(c2, 0x10));
    assert(spec_get_type(c2, 0x10) == spec_get_type(c3, 0x10));
    assert(spec_get_type(c3, 0x10) == spec_get_type(c4, 0x10));
    assert(spec_get_type(c, 0x0D) == spec_get_type(c1, 0x0D));
    assert(spec_get_type(c1, 0x0D) == spec_get_type(c2, 0x0D));
    assert(spec_get_type(c2, 0x0D) == spec_get_type(c3, 0x0D));
    assert(spec_get_type(c3, 0x0D) == spec_get_type(c4, 0x0D));
    assert(spec_get_type(c, 0x0F) == spec_get_type(c1, 0x0F));
    assert(spec_get_type(c1, 0x0F) == spec_get_type(c2, 0x0F));
    assert(spec_get_type(c2, 0x0F) == spec_get_type(c3, 0x0F));
    assert(spec_get_type(c3, 0x0F) == spec_get_type(c4, 0x0F));
    assert(spec_get_type(c, 0x08) == spec_get_type(c1, 0x08));
    assert(spec_get_type(c, 0x04) == spec_get_type(c1, 0x04));
    assert(spec_get_type(c1, 0x04) == spec_get_type(c2, 0x04));
    assert(spec_get_type(c, 0x02) == spec_get_type(c1, 0x02));
    assert(spec_get_type(c1, 0x02) == spec_get_type(c2, 0x02));
    assert(spec_get_type(c2, 0x02) == spec_get_type(c3, 0x02));
}

/// The bytes the record of a first file commit encodes to: version and
/// origin mask, the previous commit, then size, name and edit script.
proof fn lemma_fresh_file_encoding(f: RepoFileV)
    requires
        ({
            let ed = aspect_of(f, 0x02);
            let rz = aspect_of(f, 0x08);
            let rn = aspect_of(f, 0x04);
            f.content == fresh_file_content(rz->Resize_0, rn->Rename_0, ed->Edit_0, ed->Edit_1)
        }),
    ensures
        spec_record_bytes(f) == seq![f.version, 3u8] + f.previous_commit + spec_vlq_encode(
            aspect_of(f, 0x08)->Resize_0,
        ) + aspect_of(f, 0x04)->Rename_0 + seq![0u8] + spec_encode_instructions(
            aspect_of(f, 0x02)->Edit_0,
            aspect_of(f, 0x02)->Edit_1,
            0,
        ),
{
    let ed = aspect_of(f, 0x02);
    let rz = aspect_of(f, 0x08);
    let rn = aspect_of(f, 0x04);
    lemma_fresh_file_aspects(f.content, rz->Resize_0, rn->Rename_0, ed->Edit_0, ed->Edit_1);
    assert(spec_record_bytes(f) =~= seq![f.version, 3u8] + f.previous_commit + spec_vlq_encode(
        rz->Resize_0,
    ) + rn->Rename_0 + seq![0u8] + spec_encode_instructions(ed->Edit_0, ed->Edit_1, 0));
}

/// Decoding the bytes of a first file commit reads every aspect back,
/// with the edit script raw.
#[verifier::rlimit(100)]
#[verifier::spinoff_prover]
proof fn lemma_decode_fresh_file(
    data: Seq<u8>,
    fname: Seq<u8>,
    ver: u8,
    prev: Seq<u8>,
    sz: u64,
    nm: Seq<u8>,
    encins: Seq<u8>,
)
    requires
        data == seq![ver, 3u8] + prev + spec_vlq_encode(sz) + nm + seq![0u8] + encins,
        prev.len() == 29,
        sz < 0x400_0000_0000,
        forall|i: int| 0 <= i < nm.len() ==> nm[i] != 0,
        encins.len() > 0,
    ensures
        ({
            let d = spec_decode_record(data, fname);
            &&& d.version == ver
            &&& d.name == fname
            &&& d.previous_commit == prev
            &&& d.content == seq![
                AspectV::NewFile,
                AspectV::Resize(sz),
                AspectV::Rename(nm),
                AspectV::EditNotProcessed(encins),
            ]
        }),
{
    let vlq = spec_vlq_encode(sz);
    crate::codec::lemma_vlq_round_trip(sz);
    let vlen = spec_vlq_len(sz);
    assert(1 <= vlen <= 8);
    assert(data.len() == 2 + 29 + vlen + nm.len() + 1 + encins.len());
    assert(data[0] == ver);
    assert(data[1] == 3u8);

    // The previous commit reads back.
    let slp = spec_save_slice(data, 2);
    assert(slp =~= data.subrange(2, data.len() as int));
    assert(crate::cid::spec_cid_pad(slp) =~= prev) by {
        assert(slp.len() >= 29);
        assert forall|i: int| 0 <= i < 29 implies crate::cid::spec_cid_pad(slp)[i] == prev[i] by {
            assert(slp[i] == data[2 + i]);
            assert(data[2 + i] == prev[i]);
        }
    }

    // The size reads back.
    let sl31 = spec_save_slice(data, 31);
    assert(sl31 =~= vlq + data.subrange(31 + vlen, data.len() as int)) by {
        assert forall|i: int| 0 <= i < sl31.len() implies sl31[i] == (vlq + data.subrange(
            31 + vlen,
            data.len() as int,
        ))[i] by {
            assert(sl31[i] == data[31 + i]);
        }
    }
    crate::codec::lemma_vlq_decode_with_tail(sz, data.subrange(31 + vlen, data.len() as int));

    // The name reads back, up to its terminator.
    let offr = 31 + vlen;
    let slr = spec_save_slice(data, offr);
    assert(slr =~= nm + seq![0u8] + encins) by {
        assert forall|i: int| 0 <= i < slr.len() implies slr[i] == (nm + seq![0u8] + encins)[i] by {
            assert(slr[i] == data[offr + i]);
        }
    }
    crate::codec::lemma_first_nul_at(slr, nm.len() as int);
    assert(slr.subrange(0, nm.len() as int) =~= nm);

    // The edit payload is stashed raw.
    let offe = offr + nm.len() + 1;
    let sle = spec_save_slice(data, offe);
    assert(sle =~= encins) by {
        assert(offe < data.len());
        assert forall|i: int| 0 <= i < sle.len() implies sle[i] == encins[i] by {
            assert(sle[i] == data[offe + i]);
        }
    }

    let d = spec_decode_record(data, fname);
    assert(d.content =~= seq![
        AspectV::NewFile,
        AspectV::Resize(sz),
        AspectV::Rename(nm),
        AspectV::EditNotProcessed(encins),
    ]);
}

/// Decoding inverts encoding for the record a first file commit writes:
/// the version, previous commit and aspects come back, with the edit
/// script raw, and parsing that raw payload restores the instructions.
pub proof fn lemma_fresh_file_record_round_trip(f: RepoFileV, fname: Seq<u8>)
    requires
        ({
            let ed = aspect_of(f, 0x02);
            let rz = aspect_of(f, 0x08);
            let rn = aspect_of(f, 0x04);
            &&& f.content == fresh_file_content(
                rz->Resize_0,
                rn->Rename_0,
                ed->Edit_0,
                ed->Edit_1,
            )
            &&& f.previous_commit.len() == 29
            &&& rz->Resize_0 < 0x400_0000_0000
            &&& forall|i: int| 0 <= i < rn->Rename_0.len() ==> rn->Rename_0[i] != 0
            &&& encodable_instructions(ed->Edit_0, ed->Edit_1)
            &&& 1 <= ed->Edit_1 <= 8
            &&& ed->Edit_0.len() > 0
        }),
    ensures
        ({
            let d = spec_decode_record(spec_record_bytes(f), fname);
            let ed = aspect_of(f, 0x02);
            let rz = aspect_of(f, 0x08);
            let rn = aspect_of(f, 0x04);
            &&& d.version == f.version
            &&& d.name == fname
            &&& d.previous_commit == f.previous_commit
            &&& d.content == seq![
                AspectV::NewFile,
                AspectV::Resize(rz->Resize_0),
                AspectV::Rename(rn->Rename_0),
                AspectV::EditNotProcessed(
                    spec_encode_instructions(ed->Edit_0, ed->Edit_1, 0),
                ),
            ]
            &&& spec_parse_ins(
                spec_encode_instructions(ed->Edit_0, ed->Edit_1, 0),
                ed->Edit_1,
            ) == ed->Edit_0
        }),
{
    let ed = aspect_of(f, 0x02);
    let rz = aspect_of(f, 0x08);
    let rn = aspect_of(f, 0x04);
    let ins = ed->Edit_0;
    let ps = ed->Edit_1;
    let encins = spec_encode_instructions(ins, ps, 0);
    lemma_fresh_file_encoding(f);
    assert(encins.len() > 0) by {
        assert(spec_encode_instructions(ins, ps, 0)
            == crate::record_bytes::spec_encode_instruction(ins[0], ps)
            + spec_encode_instructions(ins, ps, 1));
        let e0 = crate::record_bytes::spec_encode_instruction(ins[0], ps);
        assert(e0.len() > 0);
    }
    lemma_decode_fresh_file(
        spec_record_bytes(f),
        fname,
        f.version,
        f.previous_commit,
        rz->Resize_0,
        rn->Rename_0,
        encins,
    );
    crate::record_bytes::lemma_instructions_round_trip(ins, ps);
}

/// Decoding inverts encoding for a branch head record.
pub proof fn lemma_branch_record_round_trip(f: RepoFileV, fname: Seq<u8>)
    requires
        f.content == seq![AspectV::BranchHead],
        f.previous_commit.len() == 29,
    ensures
        ({
            let d = spec_decode_record(spec_record_bytes(f), fname);
            &&& d.version == f.version
            &&& d.name == fname
            &&& d.previous_commit == f.previous_commit
            &&& d.content == seq![AspectV::BranchHead]
        }),
{
    let c = f.content;
    let c1 = c.drop_first();
    assert(c1 =~= Seq::<AspectV>::empty());
    assert(spec_get_type(c1, 0x00) is Missing);
    assert(spec_get_type(c, 0x00) is Missing);
    assert(spec_get_type(c1, 0x01) is Missing);
    assert(spec_get_type(c, 0x01) == AspectV::BranchHead);
    let data = spec_record_bytes(f);
    assert(data =~= seq![f.version, 1u8] + f.previous_commit);
    assert(data[1] == 1u8);
    let slp = spec_save_slice(data, 2);
    assert(slp =~= f.previous_commit);
    assert(crate::cid::spec_cid_pad(slp) =~= f.previous_commit);
    let d = spec_decode_record(data, fname);
    assert(d.content =~= seq![AspectV::BranchHead]);
}

/// Decoding inverts encoding for a delete record without metadata.
pub proof fn lemma_delete_record_round_trip(f: RepoFileV, fname: Seq<u8>)
    requires
        f.content == seq![AspectV::Delete],
        f.previous_commit.len() == 29,
    ensures
        ({
            let d = spec_decode_record(spec_record_bytes(f), fname);
            &&& d.version == f.version
            &&& d.name == fname
            &&& d.previous_commit == f.previous_commit
            &&& d.content == seq![AspectV::Delete]
        }),
{
    let c = f.content;
    let c1 = c.drop_first();
    assert(c1 =~= Seq::<AspectV>::empty());
    assert(spec_get_type(c1, 0x00) is Missing);
    assert(spec_get_type(c, 0x00) is Missing);
    assert(spec_get_type(c1, 0x01) is Missing);
    assert(spec_get_type(c, 0x01) is Missing);
    assert(spec_get_type(c1, 0x10) is Missing);
    assert(spec_get_type(c, 0x10) is Missing);
    assert(spec_get_type(c1, 0x05) is Missing);
    assert(spec_get_type(c, 0x05) == AspectV::Delete);
    let data = spec_record_bytes(f);
    assert(data =~= seq![f.version, 5u8] + f.previous_commit);
    assert(data[1] == 5u8);
    let slp = spec_save_slice(data, 2);
    assert(slp =~= f.previous_commit);
    assert(crate::cid::spec_cid_pad(slp) =~= f.previous_commit);
    let d = spec_decode_record(data, fname);
    assert((5u8 % 0x20) / 0x10 == 0);
    assert(d.content =~= seq![AspectV::Delete]);
}

/// A run of whole identifiers parses back into the identifiers.
proof fn lemma_parse_cids_of_concat(data: Seq<u8>, ids: Seq<Seq<u8>>, off: int, k: int)
    requires
        0 <= k <= ids.len(),
        0 <= off <= data.len(),
        forall|i: int| 0 <= i < ids.len() ==> (#[trigger] ids[i]).len() == 29,
        data.subrange(off, data.len() as int) == crate::record_bytes::spec_encode_cids(ids, k),
    ensures
        crate::record_bytes::spec_parse_cids(data, off) == ids.subrange(k, ids.len() as int),
    decreases ids.len() - k,
{
    let enc = crate::record_bytes::spec_encode_cids(ids, k);
    if k == ids.len() {
        assert(enc =~= Seq::<u8>::empty());
        assert(off >= data.len());
        assert(crate::record_bytes::spec_parse_cids(data, off) =~= Seq::<Seq<u8>>::empty());
        assert(ids.subrange(k, ids.len() as int) =~= Seq::<Seq<u8>>::empty());
    } else {
        assert(enc == ids[k] + crate::record_bytes::spec_encode_cids(ids, k + 1));
        assert(enc.len() >= 29);
        assert(off < data.len());
        let sl = spec_save_slice(data, off);
        assert(sl =~= data.subrange(off, data.len() as int));
        assert(crate::cid::spec_cid_pad(sl) =~= ids[k]) by {
            assert(sl.len() >= 29);
            assert forall|i: int| 0 <= i < 29 implies crate::cid::spec_cid_pad(sl)[i]
                == ids[k][i] by {
                assert(sl[i] == enc[i]);
                assert(enc[i] == ids[k][i]);
            }
        }
        assert(data.subrange(off + 29, data.len() as int)
            =~= crate::record_bytes::spec_encode_cids(ids, k + 1)) by {
            let rest = crate::record_bytes::spec_encode_cids(ids, k + 1);
            assert(data.len() - off == enc.len());
            assert forall|i: int| 0 <= i < data.len() - off - 29 implies data.subrange(
                off + 29,
                data.len() as int,
            )[i] == rest[i] by {
                assert(data.subrange(off + 29, data.len() as int)[i] == data[off + 29 + i]);
                assert(data.subrange(off, data.len() as int)[29 + i] == data[off + 29 + i]);
                assert(enc[29 + i] == rest[i]);
            }
        }
        lemma_parse_cids_of_concat(data, ids, off + 29, k + 1);
        if off + 29 >= data.len() {
            assert(crate::record_bytes::spec_parse_cids(data, off) == seq![
                crate::cid::spec_cid_pad(sl),
            ]);
            assert(ids.subrange(k + 1, ids.len() as int) =~= Seq::<Seq<u8>>::empty());
            assert(ids.subrange(k, ids.len() as int) =~= seq![ids[k]]);
        } else {
            assert(ids.subrange(k, ids.len() as int) =~= seq![ids[k]] + ids.subrange(
                k + 1,
                ids.len() as int,
            ));
        }
    }
}

/// Decoding inverts encoding for the record a fresh folder commit
/// writes: the origin name and the listed children come back whole.
#[verifier::rlimit(100)]
#[verifier::spinoff_prover]
pub proof fn lemma_fresh_folder_record_round_trip(f: RepoFileV, fname: Seq<u8>)
    requires
        ({
            let nf = aspect_of(f, 0x0D);
            let fo = aspect_of(f, 0x0F);
            &&& f.content == seq![
                AspectV::NewFolder(nf->NewFolder_0),
                AspectV::Folder(fo->Folder_0),
            ]
            &&& f.previous_commit.len() == 29
            &&& (forall|i: int| 0 <= i < nf->NewFolder_0.len() ==> nf->NewFolder_0[i] != 0)
            &&& (forall|i: int|
                0 <= i < fo->Folder_0.len() ==> (#[trigger] fo->Folder_0[i]).len() == 29)
        }),
    ensures
        ({
            let d = spec_decode_record(spec_record_bytes(f), fname);
            let nf = aspect_of(f, 0x0D);
            let fo = aspect_of(f, 0x0F);
            &&& d.version == f.version
            &&& d.name == fname
            &&& d.previous_commit == f.previous_commit
            &&& d.content == seq![
                AspectV::NewFolder(nf->NewFolder_0),
                AspectV::Folder(fo->Folder_0),
            ]
        }),
{
    let nm = aspect_of(f, 0x0D)->NewFolder_0;
    let ids = aspect_of(f, 0x0F)->Folder_0;
    let c = f.content;
    let c1 = c.drop_first();
    let c2 = c1.drop_first();
    assert(c1 =~= seq![AspectV::Folder(ids)]);
    assert(c2 =~= Seq::<AspectV>::empty());
    assert(spec_get_type(c2, 0x00) is Missing);
    assert(spec_get_type(c1, 0x00) is Missing);
    assert(spec_get_type(c, 0x00) is Missing);
    assert(spec_get_type(c2, 0x01) is Missing);
    assert(spec_get_type(c1, 0x01) is Missing);
    assert(spec_get_type(c, 0x01) is Missing);
    assert(spec_get_type(c2, 0x10) is Missing);
    assert(spec_get_type(c1, 0x10) is Missing);
    assert(spec_get_type(c, 0x10) is Missing);
    assert(spec_get_type(c2, 0x05) is Missing);
    assert(spec_get_type(c1, 0x05) is Missing);
    assert(spec_get_type(c, 0x05) is Missing);
    assert(spec_get_type(c2, 0x03) is Missing);
    assert(spec_get_type(c1, 0x03) is Missing);
    assert(spec_get_type(c, 0x03) is Missing);
    assert(spec_get_type(c, 0x0D) == AspectV::NewFolder(nm));
    assert(spec_get_type(c1, 0x0F) == AspectV::Folder(ids));
    assert(spec_get_type(c, 0x0F) == AspectV::Folder(ids));

    let encids = crate::record_bytes::spec_encode_cids(ids, 0);
    let data = spec_record_bytes(f);
    assert(data =~= seq![f.version, 0x0Du8] + f.previous_commit + nm + seq![0u8] + encids);
    assert(data[1] == 0x0Du8);
    assert((0x0Du8 % 0x20) / 0x10 == 0);

    // The previous commit reads back.
    let slp = spec_save_slice(data, 2);
    assert(slp =~= data.subrange(2, data.len() as int));
    assert(crate::cid::spec_cid_pad(slp) =~= f.previous_commit) by {
        assert(slp.len() >= 29);
        assert forall|i: int| 0 <= i < 29 implies crate::cid::spec_cid_pad(slp)[i]
            == f.previous_commit[i] by {
            assert(slp[i] == data[2 + i]);
            assert(data[2 + i] == f.previous_commit[i]);
        }
    }

    // The folder name reads back, up to its terminator.
    let sln = spec_save_slice(data, 31);
    assert(sln =~= nm + seq![0u8] + encids) by {
        assert forall|i: int| 0 <= i < sln.len() implies sln[i] == (nm + seq![0u8] + encids)[i] by {
            assert(sln[i] == data[31 + i]);
        }
    }
    crate::codec::lemma_first_nul_at(sln, nm.len() as int);
    assert(sln.subrange(0, nm.len() as int) =~= nm);

    // The children read back whole.
    let offn = 31 + nm.len() + 1;
    assert(data.subrange(offn as int, data.len() as int) =~= encids) by {
        assert forall|i: int| 0 <= i < encids.len() implies data.subrange(
            offn as int,
            data.len() as int,
        )[i] == encids[i] by {
            assert(data.subrange(offn as int, data.len() as int)[i] == data[offn + i]);
        }
    }
    lemma_parse_cids_of_concat(data, ids, offn as int, 0);
    assert(ids.subrange(0, ids.len() as int) =~= ids);

    let d = spec_decode_record(data, fname);
    assert(d.content =~= seq![AspectV::NewFolder(nm), AspectV::Folder(ids)]);
}

/// Rebuilding a single-record chain replays its edit script over a zero
/// buffer of the recorded size: what the first commit of a file encodes,
/// the checkout decodes back to the very bytes.
pub proof fn lemma_fresh_file_rebuild(c: Seq<RepoFileV>, v: Seq<u8>)
    requires
        c.len() == 1,
        ({
            let ed = aspect_of(c[0], 0x02);
            let rz = aspect_of(c[0], 0x08);
            &&& ed is Edit
            &&& rz is Resize
            &&& aspect_of(c[0], 0x03) is NewFile
            &&& spec_to_size(rz->Resize_0) == v.len()
            &&& spec_replay(ed->Edit_0, spec_resize(Seq::<u8>::empty(), v.len() as int), 0) == v
            &&& v.len() > 0
        }),
    ensures
        spec_assemble_bytes(c) == v,
{
    let ed = aspect_of(c[0], 0x02);
    let rz = aspect_of(c[0], 0x08);
    let n = spec_cut_len(c);
    assert(n == 1);
    assert(spec_max_size(c, 0) == 0);
    assert(spec_max_size(c, 1) == v.len() as int);
    assert(spec_cur_size(c, 1, 1) == 0);
    assert(spec_cur_size(c, 0, 1) == v.len() as int);
    let buf0 = Seq::new(v.len() as nat, |i: int| 0u8);
    assert(buf0 =~= spec_resize(Seq::<u8>::empty(), v.len() as int));
    let st = crate::storage::spec_assemble_step(c[0], buf0, 0);
    assert(st.0 == v);
    assert(spec_assemble_from(c, 0, buf0, 0) == spec_assemble_from(c, -1, st.0, st.1));
    assert(spec_assemble_from(c, -1, st.0, st.1) == (st.0, st.1));
    let res = spec_assemble_from(c, 0, buf0, 0);
    assert(res.0 == v);
    assert(res.0.len() == v.len());
    assert(spec_assemble_bytes(c) == res.0.take(v.len() as int));
    assert(res.0.take(v.len() as int) =~= v);
}

} // verus!
