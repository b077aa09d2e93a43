//! The byte format of records: spec-level encodings for every aspect, the
//! executable encoder, and the edit-instruction parser, with the proof
//! that parsing inverts encoding for well-formed instructions.

use vstd::prelude::*;
use crate::cid::U232;
use crate::codec;
use crate::codec::{be_val, pow256, spec_vlq_encode, spec_vlq_decode, spec_vlq_len};
use crate::record::{AspectV, CommitInfo, CommitInfoV, Head, HeadV, InstructionV, OperationV, RepoFile, RepoFileType, RepoFileV, aspect_of, spec_get_type, spec_type_code};

verus! {

/// The four big-endian bytes of a 32-bit value.
pub open spec fn spec_be4(x: u32) -> Seq<u8> {
    seq![
        (x / 0x100_0000) as u8,
        ((x / 0x1_0000) % 0x100) as u8,
        ((x / 0x100) % 0x100) as u8,
        (x % 0x100) as u8,
    ]
}

/// The last `len` big-endian bytes of a value: how offsets are stored
/// under a fixed pointer size.
pub open spec fn spec_be_fix(n: nat, len: int) -> Seq<u8> {
    Seq::new(len as nat, |i: int| ((n / pow256((len - 1 - i) as nat)) % 256) as u8)
}

/// Big-endian reading inverts the fixed-width encoding of any value the
/// width can carry.
pub proof fn lemma_be_fix_val(n: nat, len: int)
    requires
        0 <= len,
        n < pow256(len as nat),
    ensures
        be_val(spec_be_fix(n, len)) == n,
    decreases len,
{
    if len == 0 {
        assert(spec_be_fix(n, 0) =~= Seq::<u8>::empty());
    } else {
        let s = spec_be_fix(n, len);
        let hi = n / 256;
        let lo = n % 256;
        vstd::arithmetic::div_mod::lemma_fundamental_div_mod(n as int, 256);
        assert(hi < pow256((len - 1) as nat)) by {
            assert(pow256(len as nat) == 256 * pow256((len - 1) as nat));
            if hi >= pow256((len - 1) as nat) {
                vstd::arithmetic::mul::lemma_mul_inequality(
                    pow256((len - 1) as nat) as int,
                    hi as int,
                    256,
                );
                assert(256 * hi >= 256 * pow256((len - 1) as nat)) by (nonlinear_arith)
                    requires
                        hi >= pow256((len - 1) as nat),
                ;
            }
        }
        lemma_be_fix_val(hi, len - 1);
        assert(s.drop_last() =~= spec_be_fix(hi, len - 1)) by {
            assert forall|i: int| 0 <= i < len - 1 implies s[i] == spec_be_fix(hi, len - 1)[i] by {
                lemma_pow256_pos((len - 2 - i) as nat);
                assert(pow256((len - 1 - i) as nat) == 256 * pow256((len - 2 - i) as nat));
                vstd::arithmetic::div_mod::lemma_div_denominator(
                    n as int,
                    256,
                    pow256((len - 2 - i) as nat) as int,
                );
                assert((n / 256) / pow256((len - 2 - i) as nat) == n / (256 * pow256(
                    (len - 2 - i) as nat,
                )));
            }
        }
        assert(s.last() == lo) by {
            assert(pow256(0) == 1);
            vstd::arithmetic::div_mod::lemma_div_basics(n as int);
        }
        assert(be_val(s) == 256 * be_val(s.drop_last()) + s.last());
    }
}

/// Writes a 32-bit value as four big-endian bytes.
pub fn u32_to_be(x: u32) -> (r: Vec<u8>)
    ensures
        r@ == spec_be4(x),
        be_val(r@) == x,
{
    let mut out: Vec<u8> = Vec::new();
    out.push((x / 0x100_0000) as u8);
    out.push(((x / 0x1_0000) % 0x100) as u8);
    out.push(((x / 0x100) % 0x100) as u8);
    out.push((x % 0x100) as u8);
    proof {
        assert(out@ =~= spec_be4(x));
        assert(out@ =~= spec_be_fix(x as nat, 4)) by {
            codec::lemma_pow256_values();
            vstd::arithmetic::div_mod::lemma_div_basics(x as int);
            vstd::arithmetic::div_mod::lemma_div_denominator(x as int, 0x100, 0x100);
            vstd::arithmetic::div_mod::lemma_div_denominator(x as int, 0x1_0000, 0x100);
        }
        codec::lemma_pow256_values();
        lemma_be_fix_val(x as nat, 4);
    }
    out
}

/// Writes a value's last `pointer_size` big-endian bytes.
pub fn usize_to_be_fix(num: usize, pointer_size: usize) -> (r: Vec<u8>)
    requires
        pointer_size <= 8,
    ensures
        r@ == spec_be_fix(num as nat, pointer_size as int),
{
    let mut out: Vec<u8> = Vec::new();
    let mut i: usize = 0;
    while i < pointer_size
        invariant
            i <= pointer_size,
            pointer_size <= 8,
            out@.len() == i,
            forall|j: int| 0 <= j < i ==> out@[j] == spec_be_fix(num as nat, pointer_size as int)[j],
        decreases pointer_size - i,
    {
        let shift = pointer_size - 1 - i;
        let q = div_pow256(num as u64, shift);
        out.push((q % 256) as u8);
        i = i + 1;
    }
    proof {
        assert(out@ =~= spec_be_fix(num as nat, pointer_size as int));
    }
    out
}

/// `n` divided by 256 to the `k`.
fn div_pow256(n: u64, k: usize) -> (r: u64)
    ensures
        r as nat == (n as nat) / pow256(k as nat),
{
    let mut q: u64 = n;
    let mut i: usize = 0;
    proof {
        vstd::arithmetic::div_mod::lemma_div_basics(n as int);
    }
    while i < k
        invariant
            i <= k,
            q as nat == (n as nat) / pow256(i as nat),
        decreases k - i,
    {
        proof {
            lemma_pow256_step(i as nat);
            lemma_pow256_pos(i as nat);
            vstd::arithmetic::div_mod::lemma_div_denominator(
                n as int,
                pow256(i as nat) as int,
                256,
            );
        }
        q = q / 256;
        i = i + 1;
    }
    q
}

pub proof fn lemma_pow256_step(k: nat)
    ensures
        pow256((k + 1) as nat) == pow256(k) * 256,
    decreases k,
{
    if k > 0 {
        lemma_pow256_step((k - 1) as nat);
    }
}

pub proof fn lemma_pow256_pos(k: nat)
    ensures
        pow256(k) >= 1,
    decreases k,
{
    if k > 0 {
        lemma_pow256_pos((k - 1) as nat);
    }
}

// ---------------------------------------------------------------------
// Aspect encodings
// ---------------------------------------------------------------------

/// The encoded bytes of one edit instruction: op byte, offset in
/// `pointer_size` bytes, length as a variable-length integer, then the
/// op-specific tail. An unknown op encodes to nothing and is dropped.
pub open spec fn spec_encode_instruction(ins: InstructionV, pointer_size: int) -> Seq<u8> {
    match ins.operation {
        OperationV::Replace(bytes) => seq![1u8] + spec_be_fix(ins.pointer as nat, pointer_size)
            + spec_vlq_encode(ins.num_bytes as u64) + bytes,
        OperationV::Blank => seq![2u8] + spec_be_fix(ins.pointer as nat, pointer_size)
            + spec_vlq_encode(ins.num_bytes as u64),
        OperationV::SetTo(b) => seq![3u8] + spec_be_fix(ins.pointer as nat, pointer_size)
            + spec_vlq_encode(ins.num_bytes as u64) + seq![b],
        OperationV::Copy(other) => seq![4u8] + spec_be_fix(ins.pointer as nat, pointer_size)
            + spec_vlq_encode(ins.num_bytes as u64) + spec_be_fix(other as nat, pointer_size),
        OperationV::Unknown => Seq::empty(),
    }
}

/// The concatenated encodings of a list of instructions.
pub open spec fn spec_encode_instructions(
    l: Seq<InstructionV>,
    pointer_size: int,
    i: int,
) -> Seq<u8>
    decreases l.len() - i,
{
    if i < 0 || i >= l.len() {
        Seq::empty()
    } else {
        spec_encode_instruction(l[i], pointer_size) + spec_encode_instructions(
            l,
            pointer_size,
            i + 1,
        )
    }
}

/// The encoded commit metadata: user, device, NUL-terminated text, and
/// the timestamp as a variable-length integer.
pub open spec fn spec_encode_cinfo(ci: CommitInfoV) -> Seq<u8> {
    spec_be4(ci.user_id) + seq![ci.device_id] + ci.text + seq![0u8] + spec_vlq_encode(ci.timestamp)
}

/// The NUL-terminated branch names of a header, one after the other.
pub open spec fn spec_encode_names(names: Seq<Seq<u8>>, i: int) -> Seq<u8>
    decreases names.len() - i,
{
    if i < 0 || i >= names.len() {
        Seq::empty()
    } else {
        names[i] + seq![0u8] + spec_encode_names(names, i + 1)
    }
}

/// The encoded header payload: repo name, branch count, branch names.
pub open spec fn spec_encode_head(h: HeadV) -> Seq<u8> {
    h.name + seq![0u8] + spec_vlq_encode(h.branches.len() as u64) + spec_encode_names(h.branches, 0)
}

/// The concatenated identifiers of a folder's children.
pub open spec fn spec_encode_cids(ids: Seq<Seq<u8>>, i: int) -> Seq<u8>
    decreases ids.len() - i,
{
    if i < 0 || i >= ids.len() {
        Seq::empty()
    } else {
        ids[i] + spec_encode_cids(ids, i + 1)
    }
}

/// The full encoded bytes of a record, as `to_bytes` writes them: version
/// byte, type mask, then the payloads in their fixed order. The mask is
/// reassembled from the aspects present, with `NewFile` implying the
/// resize, rename and edit bits, and `Delete` and `Folder` each ending
/// the record early.
pub open spec fn spec_record_bytes(f: RepoFileV) -> Seq<u8> {
    if aspect_of(f, 0x00) is Head {
        seq![f.version, 0u8] + spec_encode_head(aspect_of(f, 0x00)->Head_0)
    } else if aspect_of(f, 0x01) is BranchHead {
        seq![f.version, 1u8] + f.previous_commit
    } else if aspect_of(f, 0x05) is Delete {
        seq![f.version, (spec_ci_bit(f) + 0x05) as u8] + f.previous_commit + spec_ci_bytes(f)
    } else if aspect_of(f, 0x0F) is Folder {
        seq![f.version, spec_folder_mask(f)] + f.previous_commit + spec_ci_bytes(f)
            + spec_name_bytes(f) + spec_encode_cids(aspect_of(f, 0x0F)->Folder_0, 0)
    } else {
        seq![f.version, spec_file_mask(f)] + f.previous_commit + spec_ci_bytes(f)
            + spec_name_bytes(f) + spec_resize_bytes(f) + spec_rename_bytes(f)
            + spec_edit_bytes(f)
    }
}

/// The commit-info bit of the type mask.
pub open spec fn spec_ci_bit(f: RepoFileV) -> u8 {
    if aspect_of(f, 0x10) is CommitInfo {
        0x10
    } else {
        0x00
    }
}

/// The encoded commit-info payload, empty when absent.
pub open spec fn spec_ci_bytes(f: RepoFileV) -> Seq<u8> {
    if aspect_of(f, 0x10) is CommitInfo {
        spec_encode_cinfo(aspect_of(f, 0x10)->CommitInfo_0)
    } else {
        Seq::<u8>::empty()
    }
}

/// The low mask bits shared by the folder and file forms: `NewFile` and
/// `NewFolder` swallow the bits of the aspects they imply.
pub open spec fn spec_origin_mask(f: RepoFileV) -> u8 {
    if aspect_of(f, 0x03) is NewFile {
        (spec_ci_bit(f) + 0x03) as u8
    } else if aspect_of(f, 0x0D) is NewFolder {
        (spec_ci_bit(f) + 0x0D) as u8
    } else {
        spec_ci_bit(f)
    }
}

/// The encoded folder name, present only on a `NewFolder` record without
/// `NewFile`.
pub open spec fn spec_name_bytes(f: RepoFileV) -> Seq<u8> {
    if !(aspect_of(f, 0x03) is NewFile) && aspect_of(f, 0x0D) is NewFolder {
        aspect_of(f, 0x0D)->NewFolder_0 + seq![0u8]
    } else {
        Seq::<u8>::empty()
    }
}

/// The type mask of a folder record.
pub open spec fn spec_folder_mask(f: RepoFileV) -> u8 {
    if aspect_of(f, 0x03) is NewFile || aspect_of(f, 0x0D) is NewFolder {
        spec_origin_mask(f)
    } else {
        (spec_origin_mask(f) + 0x0F) as u8
    }
}

/// The encoded resize payload, empty when absent.
pub open spec fn spec_resize_bytes(f: RepoFileV) -> Seq<u8> {
    if aspect_of(f, 0x08) is Resize {
        spec_vlq_encode(aspect_of(f, 0x08)->Resize_0)
    } else {
        Seq::<u8>::empty()
    }
}

/// The encoded rename payload, empty when absent.
pub open spec fn spec_rename_bytes(f: RepoFileV) -> Seq<u8> {
    if aspect_of(f, 0x04) is Rename {
        aspect_of(f, 0x04)->Rename_0 + seq![0u8]
    } else {
        Seq::<u8>::empty()
    }
}

/// The encoded edit payload: parsed instructions re-encoded, or the raw
/// bytes as decoded.
pub open spec fn spec_edit_bytes(f: RepoFileV) -> Seq<u8> {
    if aspect_of(f, 0x02) is Edit {
        spec_encode_instructions(aspect_of(f, 0x02)->Edit_0, aspect_of(f, 0x02)->Edit_1, 0)
    } else if aspect_of(f, 0x02) is EditNotProcessed {
        aspect_of(f, 0x02)->EditNotProcessed_0
    } else {
        Seq::<u8>::empty()
    }
}

/// The type mask of a file record.
pub open spec fn spec_file_mask(f: RepoFileV) -> u8 {
    if aspect_of(f, 0x03) is NewFile {
        spec_origin_mask(f)
    } else {
        let rb: u8 = if aspect_of(f, 0x08) is Resize {
            0x08
        } else {
            0x00
        };
        let nb: u8 = if aspect_of(f, 0x04) is Rename {
            0x04
        } else {
            0x00
        };
        let eb: u8 = if aspect_of(f, 0x02) is Edit || aspect_of(f, 0x02) is EditNotProcessed {
            0x02
        } else {
            0x00
        };
        (spec_origin_mask(f) + rb + nb + eb) as u8
    }
}

// ---------------------------------------------------------------------
// Executable encoders
// ---------------------------------------------------------------------

impl crate::record::Instruction {
    /// Encodes this instruction under the given pointer size; an unknown
    /// op encodes to nothing and is thereby dropped.
    pub fn to_bytes(&self, pointer_size: usize) -> (r: Vec<u8>)
        requires
            pointer_size <= 8,
        ensures
            r@ == spec_encode_instruction(self@, pointer_size as int),
    {
        let mut data: Vec<u8> = Vec::new();
        match &self.operation {
            crate::record::Operation::Replace(bytes) => {
                data.push(0x01);
                let mut p = usize_to_be_fix(self.pointer, pointer_size);
                data.append(&mut p);
                let mut l = codec::value_to_utf8_bytes(self.num_bytes as u64);
                data.append(&mut l);
                let mut b = crate::record::clone_bytes(bytes);
                data.append(&mut b);
                proof {
                    assert(data@ =~= spec_encode_instruction(self@, pointer_size as int));
                }
            },
            crate::record::Operation::Blank => {
                data.push(0x02);
                let mut p = usize_to_be_fix(self.pointer, pointer_size);
                data.append(&mut p);
                let mut l = codec::value_to_utf8_bytes(self.num_bytes as u64);
                data.append(&mut l);
                proof {
                    assert(data@ =~= spec_encode_instruction(self@, pointer_size as int));
                }
            },
            crate::record::Operation::SetTo(byte) => {
                data.push(0x03);
                let mut p = usize_to_be_fix(self.pointer, pointer_size);
                data.append(&mut p);
                let mut l = codec::value_to_utf8_bytes(self.num_bytes as u64);
                data.append(&mut l);
                data.push(*byte);
                proof {
                    assert(data@ =~= spec_encode_instruction(self@, pointer_size as int));
                }
            },
            crate::record::Operation::Copy(other_pointer) => {
                data.push(0x04);
                let mut p = usize_to_be_fix(self.pointer, pointer_size);
                data.append(&mut p);
                let mut l = codec::value_to_utf8_bytes(self.num_bytes as u64);
                data.append(&mut l);
                let mut o = usize_to_be_fix(*other_pointer, pointer_size);
                data.append(&mut o);
                proof {
                    assert(data@ =~= spec_encode_instruction(self@, pointer_size as int));
                }
            },
            crate::record::Operation::Unknown => {
                proof {
                    assert(data@ =~= spec_encode_instruction(self@, pointer_size as int));
                }
            },
        }
        data
    }
}

/// Encodes a list of instructions, one after the other.
pub fn encode_instructions(l: &Vec<crate::record::Instruction>, pointer_size: usize) -> (r: Vec<
    u8,
>)
    requires
        pointer_size <= 8,
    ensures
        r@ == spec_encode_instructions(l.deep_view(), pointer_size as int, 0),
{
    let mut data: Vec<u8> = Vec::new();
    let mut i: usize = 0;
    while i < l.len()
        invariant
            pointer_size <= 8,
            i <= l@.len(),
            l.deep_view().len() == l@.len(),
            spec_encode_instructions(l.deep_view(), pointer_size as int, 0) == data@
                + spec_encode_instructions(l.deep_view(), pointer_size as int, i as int),
        decreases l@.len() - i,
    {
        let mut piece = l[i].to_bytes(pointer_size);
        proof {
            assert((data@ + spec_encode_instruction(l.deep_view()[i as int], pointer_size as int))
                + spec_encode_instructions(l.deep_view(), pointer_size as int, i + 1) =~= data@ + (
            spec_encode_instruction(l.deep_view()[i as int], pointer_size as int)
                + spec_encode_instructions(l.deep_view(), pointer_size as int, i + 1)));
        }
        data.append(&mut piece);
        i = i + 1;
    }
    proof {
        assert(data@ + spec_encode_instructions(l.deep_view(), pointer_size as int, l@.len() as int)
            =~= data@);
    }
    data
}

impl crate::record::CommitInfo {
    /// Encodes the commit metadata payload.
    pub fn to_bytes(&self) -> (r: Vec<u8>)
        ensures
            r@ == spec_encode_cinfo(self@),
    {
        let mut data: Vec<u8> = Vec::new();
        let mut u = u32_to_be(self.user_id);
        data.append(&mut u);
        data.push(self.device_id);
        let mut t = crate::record::clone_bytes(&self.text);
        data.append(&mut t);
        data.push(0x00);
        let mut ts = codec::value_to_utf8_bytes(self.timestamp);
        data.append(&mut ts);
        proof {
            assert(data@ =~= spec_encode_cinfo(self@));
        }
        data
    }
}

impl crate::record::Head {
    /// Encodes the header payload: name, branch count, branch names.
    pub fn to_bytes(&self) -> (r: Vec<u8>)
        ensures
            r@ == spec_encode_head(self@),
    {
        let mut data: Vec<u8> = Vec::new();
        let mut n = crate::record::clone_bytes(&self.name);
        data.append(&mut n);
        data.push(0x00);
        let mut c = codec::value_to_utf8_bytes(self.branches.len() as u64);
        data.append(&mut c);
        let ghost prefix = data@;
        let mut i: usize = 0;
        while i < self.branches.len()
            invariant
                i <= self.branches@.len(),
                self.branches.deep_view().len() == self.branches@.len(),
                prefix + spec_encode_names(self.branches.deep_view(), 0) == data@
                    + spec_encode_names(self.branches.deep_view(), i as int),
            decreases self.branches@.len() - i,
        {
            let ghost bs = self.branches.deep_view();
            let mut b = crate::record::clone_bytes(&self.branches[i]);
            proof {
                assert((data@ + (bs[i as int] + seq![0u8])) + spec_encode_names(bs, i + 1) =~= data@
                    + ((bs[i as int] + seq![0u8]) + spec_encode_names(bs, i + 1)));
            }
            data.append(&mut b);
            data.push(0x00);
            i = i + 1;
        }
        proof {
            assert(data@ + spec_encode_names(
                self.branches.deep_view(),
                self.branches@.len() as int,
            ) =~= data@);
            assert(data@ =~= spec_encode_head(self@));
        }
        data
    }
}

/// Encodes a folder's child identifiers, one after the other.
pub fn encode_cids(ids: &Vec<U232>) -> (r: Vec<u8>)
    ensures
        r@ == spec_encode_cids(ids.deep_view(), 0),
{
    let mut data: Vec<u8> = Vec::new();
    let mut i: usize = 0;
    while i < ids.len()
        invariant
            i <= ids@.len(),
            ids.deep_view().len() == ids@.len(),
            spec_encode_cids(ids.deep_view(), 0) == data@ + spec_encode_cids(
                ids.deep_view(),
                i as int,
            ),
        decreases ids@.len() - i,
    {
        let mut piece = vstd::slice::slice_to_vec(ids[i].to_be_bytes());
        proof {
            assert((data@ + ids.deep_view()[i as int]) + spec_encode_cids(
                ids.deep_view(),
                i + 1,
            ) =~= data@ + (ids.deep_view()[i as int] + spec_encode_cids(ids.deep_view(), i + 1)));
        }
        data.append(&mut piece);
        i = i + 1;
    }
    proof {
        assert(data@ + spec_encode_cids(ids.deep_view(), ids.deep_view().len() as int) =~= data@);
    }
    data
}

impl crate::record::RepoFile {
    /// Encodes this record into its on-disk bytes. These bytes are also
    /// the input the commit identifier is hashed over.
    #[verifier::rlimit(100)]
    pub fn to_bytes(&self) -> (r: Vec<u8>)
        requires
            spec_get_type_edit_psize_ok(self@),
        ensures
            r@ == spec_record_bytes(self@),
    {
        let ghost fv = self@;
        let mut data: Vec<u8> = Vec::new();
        data.push(self.version);

        if let RepoFileType::Head(head) = self.get_type(0x00) {
            data.push(0x00);
            let mut h = head.to_bytes();
            data.append(&mut h);
            proof {
                assert(data@ =~= spec_record_bytes(fv));
            }
            return data;
        }

        let mut prev = vstd::slice::slice_to_vec(self.previous_commit.to_be_bytes());

        if let RepoFileType::BranchHead = self.get_type(0x01) {
            data.push(0x01);
            data.append(&mut prev);
            proof {
                assert(data@ =~= spec_record_bytes(fv));
            }
            return data;
        }

        let mut ci_bit: u8 = 0x00;
        let mut ci_bytes: Vec<u8> = Vec::new();
        if let RepoFileType::CommitInfo(info) = self.get_type(0x10) {
            ci_bit = 0x10;
            ci_bytes = info.to_bytes();
        }
        proof {
            assert(ci_bit == spec_ci_bit(fv));
            assert(ci_bytes@ == spec_ci_bytes(fv));
        }

        if let RepoFileType::Delete = self.get_type(0x05) {
            data.push(ci_bit + 0x05);
            data.append(&mut prev);
            data.append(&mut ci_bytes);
            proof {
                assert(data@ =~= spec_record_bytes(fv));
            }
            return data;
        }

        let has_newfile = matches!(self.get_type(0x03), RepoFileType::NewFile);
        let mut has_newfolder = false;
        let mut name_bytes: Vec<u8> = Vec::new();
        if let RepoFileType::NewFolder(name) = self.get_type(0x0D) {
            has_newfolder = true;
            if !has_newfile {
                name_bytes = crate::record::clone_bytes(name);
                name_bytes.push(0x00);
            }
        }
        let mask1: u8 = if has_newfile {
            ci_bit + 0x03
        } else if has_newfolder {
            ci_bit + 0x0D
        } else {
            ci_bit
        };
        proof {
            assert(mask1 == spec_origin_mask(fv));
            assert(name_bytes@ == spec_name_bytes(fv));
        }

        if let RepoFileType::Folder(files) = self.get_type(0x0F) {
            let mask2: u8 = if has_newfile || has_newfolder {
                mask1
            } else {
                mask1 + 0x0F
            };
            data.push(mask2);
            data.append(&mut prev);
            data.append(&mut ci_bytes);
            data.append(&mut name_bytes);
            let mut ids = encode_cids(files);
            data.append(&mut ids);
            proof {
                assert(data@ =~= spec_record_bytes(fv));
            }
            return data;
        }

        let mut resize_bit: u8 = 0x00;
        let mut resize_bytes: Vec<u8> = Vec::new();
        if let RepoFileType::Resize(size) = self.get_type(0x08) {
            resize_bit = 0x08;
            resize_bytes = codec::value_to_utf8_bytes(*size);
        }
        proof {
            assert(resize_bytes@ == spec_resize_bytes(fv));
        }

        let mut rename_bit: u8 = 0x00;
        let mut rename_bytes: Vec<u8> = Vec::new();
        if let RepoFileType::Rename(name) = self.get_type(0x04) {
            rename_bit = 0x04;
            rename_bytes = crate::record::clone_bytes(name);
            rename_bytes.push(0x00);
        }
        proof {
            assert(rename_bytes@ =~= spec_rename_bytes(fv));
        }

        let mut edit_bit: u8 = 0x00;
        let mut edit_bytes: Vec<u8> = Vec::new();
        let edit = self.get_type(0x02);
        if let RepoFileType::Edit(instructions, pointer_size) = edit {
            edit_bit = 0x02;
            edit_bytes = encode_instructions(instructions, *pointer_size);
        } else if let RepoFileType::EditNotProcessed(dat) = edit {
            edit_bit = 0x02;
            edit_bytes = crate::record::clone_bytes(dat);
        }

        proof {
            assert(edit_bytes@ == spec_edit_bytes(fv));
        }
        let mask3: u8 = if has_newfile {
            mask1
        } else {
            mask1 + resize_bit + rename_bit + edit_bit
        };
        proof {
            assert(mask3 == spec_file_mask(fv));
        }
        data.push(mask3);
        data.append(&mut prev);
        data.append(&mut ci_bytes);
        data.append(&mut name_bytes);
        data.append(&mut resize_bytes);
        data.append(&mut rename_bytes);
        data.append(&mut edit_bytes);
        proof {
            assert(data@ =~= spec_record_bytes(fv));
        }
        data
    }
}

/// An `Edit` aspect's pointer size stays within the eight bytes an offset
/// can occupy.
pub open spec fn spec_get_type_edit_psize_ok(f: RepoFileV) -> bool {
    aspect_of(f, 0x02) is Edit ==> 0 <= aspect_of(f, 0x02)->Edit_1 <= 8
}

// ---------------------------------------------------------------------
// Instruction parsing
// ---------------------------------------------------------------------

/// What the safe tail read yields: the tail from `off`, or one zero byte.
pub open spec fn spec_save_slice(data: Seq<u8>, off: int) -> Seq<u8> {
    if 0 <= off < data.len() {
        data.subrange(off, data.len() as int)
    } else {
        seq![0u8]
    }
}

/// What the safe cut yields: the first `n` bytes, clamped to the length.
pub open spec fn spec_save_cut(s: Seq<u8>, n: int) -> Seq<u8> {
    if n <= s.len() {
        s.subrange(0, if n < 0 { 0 } else { n })
    } else {
        s
    }
}

/// Degradation of a decoded 64-bit value to an address: too large for the
/// platform becomes zero.
pub open spec fn spec_to_usize(v: u64) -> usize {
    if v <= usize::MAX {
        v as usize
    } else {
        0
    }
}

/// One parsed instruction together with the offset after it.
pub open spec fn spec_parse_one(data: Seq<u8>, psize: int, offset: int) -> (InstructionV, int) {
    let typ = data[offset];
    let o1 = offset + 1;
    let pv = be_val(spec_save_cut(spec_save_slice(data, o1), psize));
    let pointer = spec_to_usize(pv as u64);
    let o2 = o1 + psize;
    let dec = spec_vlq_decode(spec_save_slice(data, o2));
    let area = spec_to_usize(dec.0);
    let o3 = o2 + dec.1;
    if typ == 0x01 {
        let re = spec_save_cut(spec_save_slice(data, o3), area as int);
        (
            InstructionV {
                pointer: pointer as int,
                num_bytes: area as int,
                operation: OperationV::Replace(re),
            },
            o3 + area,
        )
    } else if typ == 0x02 {
        (
            InstructionV {
                pointer: pointer as int,
                num_bytes: area as int,
                operation: OperationV::Blank,
            },
            o3,
        )
    } else if typ == 0x03 {
        if o3 < data.len() {
            (
                InstructionV {
                    pointer: pointer as int,
                    num_bytes: area as int,
                    operation: OperationV::SetTo(data[o3]),
                },
                o3 + 1,
            )
        } else {
            (
                InstructionV {
                    pointer: pointer as int,
                    num_bytes: area as int,
                    operation: OperationV::SetTo(0u8),
                },
                o3,
            )
        }
    } else if typ == 0x04 {
        if o3 + psize < data.len() {
            let ov = be_val(spec_save_cut(spec_save_slice(data, o3), psize));
            (
                InstructionV {
                    pointer: pointer as int,
                    num_bytes: area as int,
                    operation: OperationV::Copy(spec_to_usize(ov as u64) as int),
                },
                o3 + psize,
            )
        } else {
            (
                InstructionV {
                    pointer: pointer as int,
                    num_bytes: area as int,
                    operation: OperationV::Copy(0),
                },
                o3,
            )
        }
    } else {
        (
            InstructionV {
                pointer: pointer as int,
                num_bytes: area as int,
                operation: OperationV::Unknown,
            },
            o3,
        )
    }
}

/// The instruction list parsed from `data` starting at `offset`.
pub open spec fn spec_parse_ins_from(data: Seq<u8>, psize: int, offset: int) -> Seq<InstructionV>
    decreases data.len() - offset,
{
    if offset < 0 || offset >= data.len() || psize < 0 {
        Seq::empty()
    } else {
        let r = spec_parse_one(data, psize, offset);
        if r.1 <= offset {
            Seq::empty()
        } else if r.1 >= data.len() {
            seq![r.0]
        } else {
            seq![r.0] + spec_parse_ins_from(data, psize, r.1)
        }
    }
}

/// The instruction list an edit payload denotes under a pointer size.
pub open spec fn spec_parse_ins(data: Seq<u8>, psize: int) -> Seq<InstructionV> {
    spec_parse_ins_from(data, psize, 0)
}

/// Parses one edit payload into instructions.
#[verifier::rlimit(100)]
#[verifier::spinoff_prover]
pub fn parse_instruction_bytes(data: &[u8], pointer_size: usize) -> (r: Vec<
    crate::record::Instruction,
>)
    requires
        pointer_size <= 8,
        data@.len() + 17 < usize::MAX,
    ensures
        r.deep_view() == spec_parse_ins(data@, pointer_size as int),
{
    let mut list: Vec<crate::record::Instruction> = Vec::new();
    let mut offset: usize = 0;
    proof {
        assert(list.deep_view() + spec_parse_ins_from(data@, pointer_size as int, 0)
            =~= spec_parse_ins(data@, pointer_size as int));
    }
    while offset < data.len()
        invariant
            pointer_size <= 8,
            data@.len() + 17 < usize::MAX,
            spec_parse_ins(data@, pointer_size as int) == list.deep_view()
                + spec_parse_ins_from(data@, pointer_size as int, offset as int),
        decreases data@.len() - offset,
    {
        let ghost old_offset = offset as int;
        let ghost parsed = spec_parse_one(data@, pointer_size as int, old_offset);
        let ghost rest = spec_parse_ins_from(data@, pointer_size as int, old_offset);
        let typ = data[offset];
        offset = offset + 1;

        let cut1 = codec::save_cut(codec::save_slice(data, offset), pointer_size);
        let p64 = codec::get_u64(cut1);
        let pointer = codec::u64_to_usize(p64);
        proof {
            let sl = spec_save_slice(data@, offset as int);
            let cut = spec_save_cut(sl, pointer_size as int);
            assert(cut1@ =~= cut);
            assert(cut1@.subrange(
                0,
                if cut1@.len() > 8 {
                    8int
                } else {
                    cut1@.len() as int
                },
            ) =~= cut1@);
            assert(p64 == be_val(cut));
            assert(pointer == spec_to_usize(be_val(cut) as u64));
        }
        offset = offset + pointer_size;

        let sl2 = codec::save_slice(data, offset);
        let (area64, num_bytes) = codec::get_utf8_value(sl2);
        let area = codec::u64_to_usize(area64);
        proof {
            assert(sl2@ =~= spec_save_slice(data@, offset as int));
        }
        offset = offset + num_bytes;

        let operation: crate::record::Operation = if typ == 0x01 {
            let cut2 = codec::save_cut(codec::save_slice(data, offset), area);
            let re = vstd::slice::slice_to_vec(cut2);
            proof {
                assert(cut2@ =~= spec_save_cut(
                    spec_save_slice(data@, offset as int),
                    area as int,
                ));
            }
            if offset <= usize::MAX - area {
                offset = offset + area;
            } else {
                offset = usize::MAX;
            }
            crate::record::Operation::Replace(re)
        } else if typ == 0x02 {
            crate::record::Operation::Blank
        } else if typ == 0x03 {
            let mut val: u8 = 0x00;
            if offset < data.len() {
                val = data[offset];
                offset = offset + 1;
            }
            crate::record::Operation::SetTo(val)
        } else if typ == 0x04 {
            let mut cp: usize = 0;
            if offset + pointer_size < data.len() {
                let cut3 = codec::save_cut(codec::save_slice(data, offset), pointer_size);
                proof {
                    let sl = spec_save_slice(data@, offset as int);
                    let cut = spec_save_cut(sl, pointer_size as int);
                    assert(cut3@ =~= cut);
                    assert(cut3@.subrange(
                        0,
                        if cut3@.len() > 8 {
                            8int
                        } else {
                            cut3@.len() as int
                        },
                    ) =~= cut3@);
                }
                cp = codec::u64_to_usize(codec::get_u64(cut3));
                offset = offset + pointer_size;
            }
            crate::record::Operation::Copy(cp)
        } else {
            crate::record::Operation::Unknown
        };

        let ins = crate::record::Instruction { pointer, num_bytes: area, operation };
        proof {
            assert(ins@ =~= parsed.0);
            assert(parsed.1 > old_offset);
            if parsed.1 < data@.len() {
                assert(offset as int == parsed.1);
                assert(rest == seq![parsed.0] + spec_parse_ins_from(
                    data@,
                    pointer_size as int,
                    parsed.1,
                ));
                assert((list.deep_view() + seq![parsed.0]) + spec_parse_ins_from(
                    data@,
                    pointer_size as int,
                    parsed.1,
                ) =~= list.deep_view() + (seq![parsed.0] + spec_parse_ins_from(
                    data@,
                    pointer_size as int,
                    parsed.1,
                )));
            } else {
                assert(offset as int >= data@.len());
                assert(rest == seq![parsed.0]);
                assert((list.deep_view() + seq![parsed.0]) + spec_parse_ins_from(
                    data@,
                    pointer_size as int,
                    offset as int,
                ) =~= list.deep_view() + seq![parsed.0]);
            }
        }
        list.push(ins);
        if offset > data.len() {
            offset = data.len();
        }
    }
    proof {
        assert(list.deep_view() + spec_parse_ins_from(
            data@,
            pointer_size as int,
            offset as int,
        ) =~= list.deep_view());
    }
    list
}

impl crate::record::RepoFile {
    /// Consumes a stashed raw edit payload, turning it into parsed
    /// instructions under the given pointer size. Only a raw payload in
    /// the record's last aspect slot is parsed; anything else is left
    /// alone, so the call is idempotent.
    pub fn parse_edit_instructions(&mut self, pointer_size: usize)
        requires
            old(self).content@.len() > 0,
            pointer_size <= 8,
            old(self)@.content.last() is EditNotProcessed ==> old(
                self,
            )@.content.last()->EditNotProcessed_0.len() + 17 < usize::MAX,
        ensures
            final(self).version == old(self).version,
            final(self).name@ == old(self).name@,
            final(self).previous_commit == old(self).previous_commit,
            final(self).repo_file_hash == old(self).repo_file_hash,
            ({
                let c = old(self)@.content;
                let last = c[c.len() - 1];
                if last is EditNotProcessed {
                    final(self)@.content =~= c.update(
                        c.len() - 1,
                        AspectV::Edit(
                            spec_parse_ins(last->EditNotProcessed_0, pointer_size as int),
                            pointer_size as int,
                        ),
                    )
                } else {
                    final(self)@.content =~= c
                }
            }),
    {
        let end = self.content.len() - 1;
        let mut raw: Option<Vec<u8>> = None;
        if let RepoFileType::EditNotProcessed(dbytes) = &self.content[end] {
            raw = Some(crate::record::clone_bytes(dbytes));
        }
        if let Some(d) = raw {
            let list = parse_instruction_bytes(d.as_slice(), pointer_size);
            self.content.set(end, RepoFileType::Edit(list, pointer_size));
        }
    }
}

/// The byte width needed to index a file of the given size: one byte per
/// started eight bits of the size's binary logarithm, at least one.
pub fn psize_of_len(val: u64) -> (r: usize)
    ensures
        r == spec_psize_of_len(val),
        1 <= r <= 8,
{
    let mut m: u64 = val;
    let mut bits: usize = 0;
    proof {
        codec::lemma_pow2n_u64();
        codec::lemma_bit_len_le_pub(val as nat, 64);
    }
    while m > 0
        invariant
            codec::spec_bit_len(val as nat) == bits + codec::spec_bit_len(m as nat),
            bits <= codec::spec_bit_len(val as nat),
            codec::spec_bit_len(val as nat) <= 64,
        decreases m,
    {
        m = m / 2;
        bits = bits + 1;
    }
    let ilog: usize = if bits == 0 {
        0
    } else {
        bits - 1
    };
    ilog / 8 + 1
}

impl crate::record::RepoFile {
    /// The pointer size this record implies: derived from its resize when
    /// it has one, read off an already parsed edit otherwise, and failing
    /// both, the caller must chase the previous commit handed back.
    pub fn get_pointer_size(&self) -> (r: Result<usize, U232>)
        ensures
            ({
                let rz = spec_get_type(self@.content, 0x08);
                let ed = spec_get_type(self@.content, 0x02);
                if rz is Resize {
                    r is Ok && r->Ok_0 == spec_psize_of_len(rz->Resize_0) && r->Ok_0 <= 8
                } else if ed is Edit {
                    r is Ok && r->Ok_0 == ed->Edit_1
                } else {
                    r is Err && r->Err_0 == self.previous_commit
                }
            }),
    {
        if let RepoFileType::Resize(val) = self.get_type(0x08) {
            return Ok(psize_of_len(*val));
        }
        if let RepoFileType::Edit(_ins, pointer_size) = self.get_type(0x02) {
            return Ok(*pointer_size);
        }
        Err(self.previous_commit)
    }
}

/// The pointer size implied by a file size: the width in whole bytes of
/// the size's binary logarithm, at least one byte, and treating an empty
/// file like a one-byte one.
pub open spec fn spec_psize_of_len(val: u64) -> int {
    if val == 0 {
        1
    } else {
        (codec::spec_bit_len(val as nat) - 1) / 8 + 1
    }
}

// ---------------------------------------------------------------------
// Record decoding
// ---------------------------------------------------------------------

/// What a big-endian read of at most four bytes yields.
pub open spec fn spec_get_u32(s: Seq<u8>) -> nat {
    be_val(s.subrange(0, if s.len() > 4 { 4int } else { s.len() as int }))
}

/// The child identifiers read off a folder payload: 29 bytes each, until
/// the end of the record, the last one padded if cut short.
pub open spec fn spec_parse_cids(data: Seq<u8>, offset: int) -> Seq<Seq<u8>>
    decreases data.len() - offset,
{
    if offset < 0 || offset >= data.len() {
        Seq::empty()
    } else if offset + 29 >= data.len() {
        seq![crate::cid::spec_cid_pad(spec_save_slice(data, offset))]
    } else {
        seq![crate::cid::spec_cid_pad(spec_save_slice(data, offset))] + spec_parse_cids(
            data,
            offset + 29,
        )
    }
}

/// The NUL-terminated branch names of a header payload: at most `num`,
/// stopping at the end of the record, empty names skipped.
pub open spec fn spec_parse_names(data: Seq<u8>, offset: int, num: int) -> Seq<Seq<u8>>
    decreases num,
{
    if num <= 0 || offset < 0 || offset >= data.len() {
        Seq::empty()
    } else {
        let sl = spec_save_slice(data, offset);
        let c = crate::codec::first_nul(sl) + 1;
        let nm = sl.subrange(0, c - 1);
        let rest = spec_parse_names(data, offset + c, num - 1);
        if nm.len() == 0 {
            rest
        } else {
            seq![nm] + rest
        }
    }
}

/// The header aspect read off a header record's payload.
pub open spec fn spec_decode_head(data: Seq<u8>) -> HeadV {
    let sl = spec_save_slice(data, 2);
    let c1 = crate::codec::first_nul(sl) + 1;
    let hname = sl.subrange(0, c1 - 1);
    let off2 = 2 + c1;
    let dec = spec_vlq_decode(spec_save_slice(data, off2));
    let off3 = off2 + dec.1;
    HeadV { name: hname, branches: spec_parse_names(data, off3, dec.0 as int) }
}

/// Whether a type mask carries the commit-info bit.
pub open spec fn spec_has_ci(typ: u8) -> bool {
    (typ % 0x20) / 0x10 == 1
}

/// The commit metadata read off a commit record's payload.
pub open spec fn spec_dec_ci(data: Seq<u8>) -> CommitInfoV {
    let off0: int = 31;
    let user = spec_get_u32(spec_save_slice(data, off0));
    let off1: int = off0 + 4;
    let device: u8 = if off1 < data.len() {
        data[off1]
    } else {
        0u8
    };
    let off2: int = off1 + 1;
    let slt = spec_save_slice(data, off2);
    let ct = crate::codec::first_nul(slt) + 1;
    let text = slt.subrange(0, ct - 1);
    let off3: int = off2 + ct;
    let dect = spec_vlq_decode(spec_save_slice(data, off3));
    CommitInfoV { user_id: user as u32, device_id: device, text, timestamp: dect.0 }
}

/// The offset just past the commit metadata.
pub open spec fn spec_dec_ci_end(data: Seq<u8>) -> int {
    let off2: int = 36;
    let slt = spec_save_slice(data, off2);
    let ct = crate::codec::first_nul(slt) + 1;
    let off3: int = off2 + ct;
    let dect = spec_vlq_decode(spec_save_slice(data, off3));
    off3 + dect.1
}

/// The leading content of a commit record: its metadata when the mask
/// carries it.
pub open spec fn spec_ci_content(data: Seq<u8>, typ: u8) -> Seq<AspectV> {
    if spec_has_ci(typ) {
        seq![AspectV::CommitInfo(spec_dec_ci(data))]
    } else {
        Seq::empty()
    }
}

/// Where a commit record's aspect payloads start.
pub open spec fn spec_body_off(data: Seq<u8>, typ: u8) -> int {
    if spec_has_ci(typ) {
        spec_dec_ci_end(data)
    } else {
        31
    }
}

/// The record a byte image decodes to, under the given file name: the
/// version byte, then the type mask dispatches the payload reads in their
/// fixed order. `NewFile` implicitly brings the resize, rename and edit
/// aspects; an unknown mask yields a record with no aspects.
pub open spec fn spec_decode_record(data: Seq<u8>, name: Seq<u8>) -> RepoFileV {
    let version = data[0];
    let typ = data[1];
    let hash = crate::hashing::spec_hash_cid(data);
    if typ == 0x00 {
        RepoFileV {
            version,
            name,
            content: seq![AspectV::Head(spec_decode_head(data))],
            previous_commit: crate::cid::zero_cid(),
            repo_file_hash: hash,
        }
    } else {
        let prev = crate::cid::spec_cid_pad(spec_save_slice(data, 2));
        if typ == 0x01 {
            RepoFileV {
                version,
                name,
                content: seq![AspectV::BranchHead],
                previous_commit: prev,
                repo_file_hash: hash,
            }
        } else {
            let ci_content = spec_ci_content(data, typ);
            let off = spec_body_off(data, typ);
            let t = (typ % 0x10) as int;
            if t == 0x05 {
                RepoFileV {
                    version,
                    name,
                    content: ci_content + seq![AspectV::Delete],
                    previous_commit: prev,
                    repo_file_hash: hash,
                }
            } else {
                let content1 = if t == 0x03 {
                    ci_content + seq![AspectV::NewFile]
                } else {
                    ci_content
                };
                let t1: int = if t == 0x03 {
                    0x0E
                } else {
                    t
                };
                if t1 == 0x0D {
                    let sln = spec_save_slice(data, off);
                    let cn = crate::codec::first_nul(sln) + 1;
                    let fname = sln.subrange(0, cn - 1);
                    let offn = off + cn;
                    RepoFileV {
                        version,
                        name,
                        content: content1 + seq![AspectV::NewFolder(fname)] + seq![
                            AspectV::Folder(spec_parse_cids(data, offn)),
                        ],
                        previous_commit: prev,
                        repo_file_hash: hash,
                    }
                } else if t1 == 0x0F {
                    RepoFileV {
                        version,
                        name,
                        content: content1 + seq![AspectV::Folder(spec_parse_cids(data, off))],
                        previous_commit: prev,
                        repo_file_hash: hash,
                    }
                } else {
                    let has_rz = t1 / 0x08 == 1;
                    let decr = spec_vlq_decode(spec_save_slice(data, off));
                    let content2 = if has_rz {
                        content1 + seq![AspectV::Resize(decr.0)]
                    } else {
                        content1
                    };
                    let offr = if has_rz {
                        off + decr.1
                    } else {
                        off
                    };
                    let t2 = t1 % 0x08;
                    let has_rn = t2 / 0x04 == 1;
                    let slr = spec_save_slice(data, offr);
                    let cr = crate::codec::first_nul(slr) + 1;
                    let content3 = if has_rn {
                        content2 + seq![AspectV::Rename(slr.subrange(0, cr - 1))]
                    } else {
                        content2
                    };
                    let offe = if has_rn {
                        offr + cr
                    } else {
                        offr
                    };
                    let t3 = t2 % 0x04;
                    let has_ed = t3 / 0x02 == 1;
                    let content4 = if has_ed {
                        content3 + seq![AspectV::EditNotProcessed(spec_save_slice(data, offe))]
                    } else {
                        content3
                    };
                    RepoFileV {
                        version,
                        name,
                        content: content4,
                        previous_commit: prev,
                        repo_file_hash: hash,
                    }
                }
            }
        }
    }
}

/// Reads the child identifiers of a folder payload.
fn parse_cid_list(data: &[u8], start: usize) -> (r: Vec<U232>)
    requires
        data@.len() + 60 < usize::MAX,
    ensures
        r.deep_view() == spec_parse_cids(data@, start as int),
{
    let mut files: Vec<U232> = Vec::new();
    let mut offset: usize = start;
    proof {
        assert(files.deep_view() + spec_parse_cids(data@, start as int) =~= spec_parse_cids(
            data@,
            start as int,
        ));
    }
    while offset < data.len()
        invariant
            data@.len() + 60 < usize::MAX,
            spec_parse_cids(data@, start as int) == files.deep_view() + spec_parse_cids(
                data@,
                offset as int,
            ),
        decreases data@.len() - offset,
    {
        let ghost old_off = offset as int;
        let id = U232::from_u8arr(codec::save_slice(data, offset));
        proof {
            assert(id@ == crate::cid::spec_cid_pad(spec_save_slice(data@, old_off)));
            if old_off + 29 < data@.len() {
                assert((files.deep_view() + seq![id@]) + spec_parse_cids(data@, old_off + 29)
                    =~= files.deep_view() + (seq![id@] + spec_parse_cids(data@, old_off + 29)));
            } else {
                assert((files.deep_view() + seq![id@]) =~= files.deep_view() + seq![id@]);
            }
        }
        files.push(id);
        offset = offset + 29;
        if offset > data.len() {
            offset = data.len();
        }
        proof {
            if offset as int >= data@.len() {
                assert(spec_parse_cids(data@, offset as int) =~= Seq::<Seq<u8>>::empty());
                assert(files.deep_view() + spec_parse_cids(data@, offset as int)
                    =~= files.deep_view());
            }
        }
    }
    proof {
        assert(files.deep_view() + spec_parse_cids(data@, offset as int) =~= files.deep_view());
    }
    files
}

/// Reads the header payload: repository name, branch count, branch names.
fn decode_head_payload(data: &[u8]) -> (h: Head)
    requires
        data@.len() >= 2,
        data@.len() + 60 < usize::MAX,
    ensures
        h@ =~~= spec_decode_head(data@),
{
    let ghost dv = data@;
    let mut offset: usize = 2;
    let sl_n = codec::save_slice(data, offset);
    let (hname, num_bytes) = codec::read_string_sequence(sl_n);
    proof {
        assert(sl_n@ =~= spec_save_slice(dv, 2));
        assert(hname@ == spec_decode_head(dv).name);
    }
    offset = offset + num_bytes;
    let sl = codec::save_slice(data, offset);
    let (num_branches, num_bytes) = codec::get_utf8_value(sl);
    proof {
        assert(sl@ =~= spec_save_slice(dv, offset as int));
    }
    let ghost off3: int = offset + num_bytes;
    offset = offset + num_bytes;

    let mut branches: Vec<Vec<u8>> = Vec::new();
    let mut index: u64 = 0;
    proof {
        assert(branches.deep_view() + spec_parse_names(dv, off3, num_branches as int)
            =~= spec_parse_names(dv, off3, num_branches as int));
    }
    while index < num_branches && offset < data.len()
        invariant
            dv == data@,
            dv.len() + 60 < usize::MAX,
            index <= num_branches,
            offset >= 2,
            spec_parse_names(dv, off3, num_branches as int) == branches.deep_view()
                + spec_parse_names(dv, offset as int, (num_branches - index) as int),
        decreases num_branches - index,
    {
        let ghost old_off = offset as int;
        let sl_b = codec::save_slice(data, offset);
        let (bra_name, num_bytes) = codec::read_string_sequence(sl_b);
        proof {
            let sl0 = spec_save_slice(dv, old_off);
            assert(sl_b@ =~= sl0);
            assert(num_bytes == crate::codec::first_nul(sl0) + 1);
            assert(bra_name@ == sl0.subrange(0, crate::codec::first_nul(sl0) + 1 - 1));
        }
        offset = offset + num_bytes;
        proof {
            let sl0 = spec_save_slice(dv, old_off);
            let c = crate::codec::first_nul(sl0) + 1;
            assert(spec_parse_names(dv, old_off, (num_branches - index) as int) == (if bra_name@.len() == 0 {
                spec_parse_names(dv, old_off + c, (num_branches - index - 1) as int)
            } else {
                seq![bra_name@] + spec_parse_names(dv, old_off + c, (num_branches - index - 1) as int)
            }));
            assert(offset as int == old_off + c);
        }
        if bra_name.len() > 0 {
            proof {
                assert((branches.deep_view() + seq![bra_name@]) + spec_parse_names(
                    dv,
                    offset as int,
                    (num_branches - index - 1) as int,
                ) =~= branches.deep_view() + (seq![bra_name@] + spec_parse_names(
                    dv,
                    offset as int,
                    (num_branches - index - 1) as int,
                )));
            }
            let ghost bdv = branches.deep_view();
            branches.push(bra_name);
            proof {
                assert(branches.deep_view() =~~= bdv + seq![bra_name@]);
            }
        }
        index = index + 1;
    }
    proof {
        assert(spec_parse_names(dv, offset as int, (num_branches - index) as int)
            =~= Seq::<Seq<u8>>::empty());
        assert(branches.deep_view() + Seq::<Seq<u8>>::empty() =~= branches.deep_view());
    }
    let head = Head { name: hname, branches };
    proof {
        assert(head@ =~~= spec_decode_head(dv));
    }
    head
}

/// Reads the commit metadata payload, returning it with the offset just
/// past it.
fn decode_ci_payload(data: &[u8]) -> (r: (CommitInfo, usize))
    requires
        data@.len() >= 2,
        data@.len() + 60 < usize::MAX,
    ensures
        r.0@ =~= spec_dec_ci(data@),
        r.1 as int == spec_dec_ci_end(data@),
        r.1 as int <= data@.len() + 50,
{
    let ghost dv = data@;
    let mut offset: usize = 31;
    let sl_u = codec::save_slice(data, offset);
    let user_id = codec::get_u32(sl_u);
    proof {
        assert(sl_u@ =~= spec_save_slice(dv, 31));
        assert(user_id as nat == spec_get_u32(spec_save_slice(dv, 31)));
        assert((user_id as nat) < 0x1_0000_0000);
    }
    offset = offset + 4;
    let device_id: u8 = if offset < data.len() {
        data[offset]
    } else {
        0u8
    };
    offset = offset + 1;
    let sl_t = codec::save_slice(data, offset);
    let (text, num_bytes) = codec::read_string_sequence(sl_t);
    proof {
        assert(sl_t@ =~= spec_save_slice(dv, 36));
    }
    offset = offset + num_bytes;
    let sl_s = codec::save_slice(data, offset);
    let (timestamp, num_bytes) = codec::get_utf8_value(sl_s);
    proof {
        assert(sl_s@ =~= spec_save_slice(dv, offset as int));
    }
    offset = offset + num_bytes;
    let ci = CommitInfo { user_id, device_id, text, timestamp };
    (ci, offset)
}

/// Decodes one record image into its in-memory form. The stored hash is
/// set to the image's content identifier, for later staleness checks;
/// edit payloads stay raw until a pointer size is known.
#[verifier::rlimit(100)]
#[verifier::spinoff_prover]
pub fn decode_repo_file(data: Vec<u8>, file_name: Vec<u8>) -> (r: RepoFile)
    requires
        data@.len() >= 2,
        data@.len() + 70 < usize::MAX,
    ensures
        r@ =~~= spec_decode_record(data@, file_name@),
{
    let ghost dv = data@;
    let hash = crate::hashing::hash_data(data.as_slice());
    let version = data[0];
    let typ0 = data[1];
    let mut content: Vec<RepoFileType> = Vec::new();

    if typ0 == 0x00 {
        let head = decode_head_payload(data.as_slice());
        content.push(RepoFileType::Head(head));
        let r = RepoFile {
            version,
            name: file_name,
            content,
            previous_commit: U232::new(),
            repo_file_hash: hash,
        };
        proof {
            assert(r@ =~~= spec_decode_record(dv, file_name@));
        }
        return r;
    }

    let previous_commit = U232::from_u8arr(codec::save_slice(&data, 2));

    if typ0 == 0x01 {
        content.push(RepoFileType::BranchHead);
        let r = RepoFile {
            version,
            name: file_name,
            content,
            previous_commit,
            repo_file_hash: hash,
        };
        proof {
            assert(r@ =~~= spec_decode_record(dv, file_name@));
        }
        return r;
    }

    let mut offset: usize = 31;

    if (typ0 % 0x20) / 0x10 == 1 {
        let (ci, end) = decode_ci_payload(data.as_slice());
        content.push(RepoFileType::CommitInfo(ci));
        offset = end;
    }
    proof {
        assert(content.deep_view() =~~= spec_ci_content(dv, typ0));
        assert(offset as int == spec_body_off(dv, typ0));
    }
    let mut typ = typ0 % 0x10;

    if typ == 0x03 {
        content.push(RepoFileType::NewFile);
        typ = 0x0E;
    }

    if typ == 0x05 {
        content.push(RepoFileType::Delete);
        let r = RepoFile {
            version,
            name: file_name,
            content,
            previous_commit,
            repo_file_hash: hash,
        };
        proof {
            assert(r@ =~~= spec_decode_record(dv, file_name@));
        }
        return r;
    }

    if typ == 0x0D {
        let sl_f = codec::save_slice(&data, offset);
        let (folder_name, num_bytes) = codec::read_string_sequence(sl_f);
        proof {
            assert(sl_f@ =~= spec_save_slice(dv, offset as int));
        }
        offset = offset + num_bytes;
        content.push(RepoFileType::NewFolder(folder_name));
        let files = parse_cid_list(data.as_slice(), offset);
        content.push(RepoFileType::Folder(files));
        let r = RepoFile {
            version,
            name: file_name,
            content,
            previous_commit,
            repo_file_hash: hash,
        };
        proof {
            assert(r@ =~~= spec_decode_record(dv, file_name@));
        }
        return r;
    }
    if typ == 0x0F {
        let files = parse_cid_list(data.as_slice(), offset);
        content.push(RepoFileType::Folder(files));
        let r = RepoFile {
            version,
            name: file_name,
            content,
            previous_commit,
            repo_file_hash: hash,
        };
        proof {
            assert(r@ =~~= spec_decode_record(dv, file_name@));
        }
        return r;
    }

    if typ / 0x08 == 1 {
        let sl_z = codec::save_slice(&data, offset);
        let (size, num_bytes) = codec::get_utf8_value(sl_z);
        proof {
            assert(sl_z@ =~= spec_save_slice(dv, offset as int));
        }
        offset = offset + num_bytes;
        content.push(RepoFileType::Resize(size));
    }
    typ = typ % 0x08;

    if typ / 0x04 == 1 {
        let sl_r = codec::save_slice(&data, offset);
        let (text, num_bytes) = codec::read_string_sequence(sl_r);
        proof {
            assert(sl_r@ =~= spec_save_slice(dv, offset as int));
        }
        offset = offset + num_bytes;
        content.push(RepoFileType::Rename(text));
    }
    typ = typ % 0x04;

    if typ / 0x02 == 1 {
        let sl_e = codec::save_slice(&data, offset);
        let raw = vstd::slice::slice_to_vec(sl_e);
        proof {
            assert(sl_e@ =~= spec_save_slice(dv, offset as int));
        }
        content.push(RepoFileType::EditNotProcessed(raw));
    }

    let r = RepoFile {
        version,
        name: file_name,
        content,
        previous_commit,
        repo_file_hash: hash,
    };
    proof {
        assert(r@ =~~= spec_decode_record(dv, file_name@));
    }
    r
}

/// A lookup for the edit tag never yields a parsed edit when no element
/// is one.
pub proof fn lemma_get_type_no_edit(c: Seq<AspectV>)
    requires
        forall|i: int| 0 <= i < c.len() ==> !((#[trigger] c[i]) is Edit),
    ensures
        !(spec_get_type(c, 0x02) is Edit),
    decreases c.len(),
{
    if c.len() > 0 && spec_type_code(c[0]) != 0x02 {
        let cd = c.drop_first();
        assert forall|i: int| 0 <= i < cd.len() implies !((#[trigger] cd[i]) is Edit) by {
            assert(cd[i] == c[i + 1]);
        }
        lemma_get_type_no_edit(c.drop_first());
    }
}

/// A decoded record's content never holds a parsed edit, so the edit
/// lookup yields a raw payload or nothing.
pub proof fn lemma_decoded_no_edit_content(c: Seq<AspectV>)
    requires
        forall|i: int| 0 <= i < c.len() ==> !((#[trigger] c[i]) is Edit),
    ensures
        !(spec_get_type(c, 0x02) is Edit),
{
    lemma_get_type_no_edit(c);
}

/// A decoded record carries its edit payload raw, so the pointer-size
/// bound the encoder asks for holds of it vacuously.
pub proof fn lemma_decoded_psize_ok(data: Seq<u8>, name: Seq<u8>)
    ensures
        spec_get_type_edit_psize_ok(spec_decode_record(data, name)),
{
    let f = spec_decode_record(data, name);
    assert forall|i: int| 0 <= i < f.content.len() implies !((#[trigger] f.content[i])
        is Edit) by {
    }
    lemma_get_type_no_edit(f.content);
}

// ---------------------------------------------------------------------
// Parsing inverts encoding
// ---------------------------------------------------------------------

/// Whether one instruction survives an encode and parse round trip under
/// a pointer size: its offset fits the width, its length fits the
/// variable-length form faithfully, its payload length matches, and its
/// op is one the generator emits.
pub open spec fn encodable_instruction(ins: InstructionV, ps: int) -> bool {
    &&& 0 <= ins.pointer <= usize::MAX
    &&& (ins.pointer as nat) < pow256(ps as nat)
    &&& 0 <= ins.num_bytes <= usize::MAX
    &&& ins.num_bytes < 0x400_0000_0000
    &&& match ins.operation {
        OperationV::Replace(b) => b.len() == ins.num_bytes,
        OperationV::Blank => true,
        OperationV::SetTo(_) => true,
        _ => false,
    }
}

/// Whether every instruction of a list survives the round trip.
pub open spec fn encodable_instructions(l: Seq<InstructionV>, ps: int) -> bool {
    forall|k: int| 0 <= k < l.len() ==> encodable_instruction(#[trigger] l[k], ps)
}

/// Parsing one encoded instruction, whatever follows it, yields the
/// instruction and consumes exactly its bytes.
#[verifier::rlimit(100)]
#[verifier::spinoff_prover]
proof fn lemma_parse_one_encoded(x: InstructionV, ps: int, rest: Seq<u8>)
    requires
        encodable_instruction(x, ps),
        1 <= ps <= 8,
    ensures
        ({
            let enc = spec_encode_instruction(x, ps);
            let r = spec_parse_one(enc + rest, ps, 0);
            r.0 == x && r.1 == enc.len()
        }),
{
    let enc = spec_encode_instruction(x, ps);
    let data = enc + rest;
    let nb = x.num_bytes as u64;
    crate::codec::lemma_vlq_round_trip(nb);
    let vlen = spec_vlq_len(nb);
    assert(1 <= vlen <= 8);
    let head = seq![match x.operation {
        OperationV::Replace(_) => 1u8,
        OperationV::Blank => 2u8,
        OperationV::SetTo(_) => 3u8,
        OperationV::Copy(_) => 4u8,
        OperationV::Unknown => 0u8,
    }];
    // The encoding's fixed prefix: op byte, offset, length.
    assert(enc.len() >= 1 + ps + vlen);
    assert(data[0] == enc[0]);

    // The offset bytes read back to the pointer.
    let sl1 = spec_save_slice(data, 1);
    assert(sl1 =~= data.subrange(1, data.len() as int));
    let cut1 = spec_save_cut(sl1, ps);
    assert(cut1 =~= spec_be_fix(x.pointer as nat, ps)) by {
        assert forall|i: int| 0 <= i < ps implies cut1[i] == spec_be_fix(
            x.pointer as nat,
            ps,
        )[i] by {
            assert(cut1[i] == data[1 + i]);
            assert(data[1 + i] == enc[1 + i]);
        }
    }
    lemma_be_fix_val(x.pointer as nat, ps);

    // The length bytes read back to the byte count.
    let o2 = 1 + ps;
    let sl2 = spec_save_slice(data, o2);
    assert(sl2 =~= spec_vlq_encode(nb) + data.subrange(o2 + vlen, data.len() as int)) by {
        assert forall|i: int| 0 <= i < vlen implies sl2[i] == spec_vlq_encode(nb)[i] by {
            assert(sl2[i] == data[o2 + i]);
            assert(data[o2 + i] == enc[o2 + i]);
        }
    }
    crate::codec::lemma_vlq_decode_with_tail(nb, data.subrange(o2 + vlen, data.len() as int));
    let o3 = o2 + vlen;

    match x.operation {
        OperationV::Replace(b) => {
            let sl3 = spec_save_slice(data, o3);
            if b.len() > 0 {
                assert(o3 < data.len());
                let cut3 = spec_save_cut(sl3, x.num_bytes);
                assert(cut3 =~= b) by {
                    assert forall|i: int| 0 <= i < b.len() implies cut3[i] == b[i] by {
                        assert(cut3[i] == data[o3 + i]);
                        assert(data[o3 + i] == enc[o3 + i]);
                        assert(enc[o3 + i] == b[i]);
                    }
                }
            } else {
                if o3 < data.len() {
                    assert(spec_save_cut(sl3, 0) =~= b);
                } else {
                    assert(spec_save_cut(spec_save_slice(data, o3), 0) =~= b);
                }
            }
        },
        OperationV::Blank => {},
        OperationV::SetTo(v) => {
            assert(o3 < data.len());
            assert(data[o3] == enc[o3]);
            assert(enc[o3] == v);
        },
        _ => {},
    }
}

/// Parsing after a fixed prefix sees only the suffix.
#[verifier::rlimit(100)]
#[verifier::spinoff_prover]
proof fn lemma_parse_shift(a: Seq<u8>, b: Seq<u8>, ps: int, k: int)
    requires
        0 <= k,
        0 <= ps,
    ensures
        spec_parse_ins_from(a + b, ps, a.len() + k) == spec_parse_ins_from(b, ps, k),
    decreases b.len() - k,
{
    let data = a + b;
    if k >= b.len() {
        assert(spec_parse_ins_from(data, ps, a.len() + k) =~= Seq::<InstructionV>::empty());
        assert(spec_parse_ins_from(b, ps, k) =~= Seq::<InstructionV>::empty());
    } else {
        lemma_parse_one_shift(a, b, ps, k);
        let r = spec_parse_one(b, ps, k);
        let rs = spec_parse_one(data, ps, a.len() + k);
        assert(rs.0 == r.0 && rs.1 == a.len() + r.1);
        if r.1 <= k {
        } else if r.1 >= b.len() {
            assert(rs.1 >= data.len());
        } else {
            lemma_parse_shift(a, b, ps, r.1);
        }
    }
}

/// One parsing step after a fixed prefix reads the same bytes.
#[verifier::rlimit(100)]
#[verifier::spinoff_prover]
proof fn lemma_parse_one_shift(a: Seq<u8>, b: Seq<u8>, ps: int, k: int)
    requires
        0 <= k < b.len(),
        0 <= ps,
    ensures
        spec_parse_one(a + b, ps, a.len() + k).0 == spec_parse_one(b, ps, k).0,
        spec_parse_one(a + b, ps, a.len() + k).1 == a.len() + spec_parse_one(b, ps, k).1,
{
    let data = a + b;
    let off = a.len() + k;
    assert(data[off] == b[k]);
    assert forall|o: int| o >= off implies #[trigger] spec_save_slice(data, o)
        =~= spec_save_slice(b, o - a.len()) by {
        let ob = o - a.len();
        if ob < b.len() {
            assert forall|i: int| 0 <= i < b.len() - ob implies spec_save_slice(data, o)[i]
                == spec_save_slice(b, ob)[i] by {
                assert(spec_save_slice(data, o)[i] == data[o + i]);
                assert(data[o + i] == b[ob + i]);
            }
        }
    }
    let o2s = off + 1 + ps;
    let o2 = k + 1 + ps;
    assert(spec_save_slice(data, o2s) =~= spec_save_slice(b, o2));
    let dec = spec_vlq_decode(spec_save_slice(b, o2));
    let o3 = o2 + dec.1;
    let o3s = o2s + dec.1;
    assert(spec_save_slice(data, o3s) =~= spec_save_slice(b, o3));
    if 0 <= o3 < b.len() {
        assert(data[a.len() + o3] == b[o3]);
    }
}

/// Parsing the concatenated encodings of a list yields the list's tail
/// from the given index.
#[verifier::rlimit(100)]
#[verifier::spinoff_prover]
proof fn lemma_parse_encoded_list(l: Seq<InstructionV>, ps: int, i: int)
    requires
        encodable_instructions(l, ps),
        1 <= ps <= 8,
        0 <= i <= l.len(),
    ensures
        spec_parse_ins_from(spec_encode_instructions(l, ps, i), ps, 0) == l.subrange(
            i,
            l.len() as int,
        ),
    decreases l.len() - i,
{
    if i >= l.len() {
        assert(spec_encode_instructions(l, ps, i) =~= Seq::<u8>::empty());
        assert(spec_parse_ins_from(Seq::<u8>::empty(), ps, 0) =~= Seq::<InstructionV>::empty());
        assert(l.subrange(i, l.len() as int) =~= Seq::<InstructionV>::empty());
    } else {
        let enc0 = spec_encode_instruction(l[i], ps);
        let rest = spec_encode_instructions(l, ps, i + 1);
        let data = spec_encode_instructions(l, ps, i);
        assert(data == enc0 + rest);
        lemma_parse_one_encoded(l[i], ps, rest);
        assert(enc0.len() >= 2);
        let r = spec_parse_one(data, ps, 0);
        assert(r.0 == l[i] && r.1 == enc0.len());
        lemma_parse_encoded_list(l, ps, i + 1);
        if r.1 >= data.len() {
            assert(rest =~= Seq::<u8>::empty());
            assert(spec_parse_ins_from(data, ps, 0) == seq![l[i]]);
            assert(l.subrange(i, l.len() as int) =~= seq![l[i]] + l.subrange(
                i + 1,
                l.len() as int,
            ));
            assert(l.subrange(i + 1, l.len() as int) =~= Seq::<InstructionV>::empty());
            assert(seq![l[i]] + Seq::<InstructionV>::empty() =~= seq![l[i]]);
        } else {
            lemma_parse_shift(enc0, rest, ps, 0);
            assert(spec_parse_ins_from(data, ps, enc0.len() as int) == spec_parse_ins_from(
                rest,
                ps,
                0,
            ));
            assert(spec_parse_ins_from(data, ps, 0) == seq![l[i]] + spec_parse_ins_from(
                data,
                ps,
                r.1,
            ));
            assert(l.subrange(i, l.len() as int) =~= seq![l[i]] + l.subrange(
                i + 1,
                l.len() as int,
            ));
        }
    }
}

/// The encoded bytes of a record do not depend on its stored hash, which
/// only serves staleness checks.
pub proof fn lemma_record_bytes_hash_free(f: RepoFileV, h: Seq<u8>)
    ensures
        spec_record_bytes(RepoFileV { repo_file_hash: h, ..f }) == spec_record_bytes(f),
{
    let f2 = RepoFileV { repo_file_hash: h, ..f };
    assert(f2.content == f.content);
    assert(spec_ci_bit(f2) == spec_ci_bit(f));
    assert(spec_ci_bytes(f2) == spec_ci_bytes(f));
    assert(spec_origin_mask(f2) == spec_origin_mask(f));
    assert(spec_name_bytes(f2) == spec_name_bytes(f));
    assert(spec_folder_mask(f2) == spec_folder_mask(f));
    assert(spec_resize_bytes(f2) == spec_resize_bytes(f));
    assert(spec_rename_bytes(f2) == spec_rename_bytes(f));
    assert(spec_edit_bytes(f2) == spec_edit_bytes(f));
    assert(spec_file_mask(f2) == spec_file_mask(f));
}

/// Parsing inverts encoding: an edit payload written from sound
/// instructions reads back as the same instructions.
pub proof fn lemma_instructions_round_trip(l: Seq<InstructionV>, ps: int)
    requires
        encodable_instructions(l, ps),
        1 <= ps <= 8,
    ensures
        spec_parse_ins(spec_encode_instructions(l, ps, 0), ps) == l,
{
    lemma_parse_encoded_list(l, ps, 0);
    assert(l.subrange(0, l.len() as int) =~= l);
}

} // verus!
