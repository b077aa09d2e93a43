//! The in-memory model of one on-disk repository record: header, branch
//! head, or commit. A record is a version byte, a type mask, and a payload
//! of aspects; this module holds the types, their mathematical views, the
//! aspect lookup, and the replay of single edit instructions.

use vstd::prelude::*;
use crate::cid::U232;

verus! {

/// One record of a repository: the decoded form of one file in the repo
/// folder.
pub struct RepoFile {
    /// Format version byte (currently zero).
    pub version: u8,
    /// The record's file name bytes: `HEADER`, a branch name, or the hex
    /// form of the commit identifier.
    pub name: Vec<u8>,
    /// The aspects the record carries, in decode order.
    pub content: Vec<RepoFileType>,
    /// The record this one chains back to; all zero when there is none.
    pub previous_commit: U232,
    /// Identifier over the encoded bytes as last seen in the repo folder,
    /// for staleness checks on write-back.
    pub repo_file_hash: U232,
}

/// One aspect of a record, tagged as in the type mask.
pub enum RepoFileType {
    /// Repository header: display name and branch list (mask 0x00).
    Head(Head),
    /// A branch head; its previous-commit field is the branch tip (0x01).
    BranchHead,
    /// Parsed edit instructions with the pointer size they were parsed
    /// under (0x02).
    Edit(Vec<Instruction>, usize),
    /// Raw edit bytes, kept until the pointer size is known (0x02).
    EditNotProcessed(Vec<u8>),
    /// Marks the origin of a file chain (0x03).
    NewFile,
    /// New file size in bytes (0x08).
    Resize(u64),
    /// Marks the end of a chain's life (0x05).
    Delete,
    /// New file name (0x04).
    Rename(Vec<u8>),
    /// Marks the origin of a folder chain, with the folder name (0x0D).
    NewFolder(Vec<u8>),
    /// Child commit identifiers of a folder commit (0x0F).
    Folder(Vec<U232>),
    /// Who committed, when, and why (0x10).
    CommitInfo(CommitInfo),
    /// No aspect: what a lookup yields when the record lacks the kind.
    Missing,
}

/// Repository header payload: display name and the ordered branch list.
pub struct Head {
    pub name: Vec<u8>,
    pub branches: Vec<Vec<u8>>,
}

/// Commit metadata. On a chain origin the timestamp is absolute unix
/// seconds; on any later commit it is the delta to the predecessor.
pub struct CommitInfo {
    pub user_id: u32,
    pub device_id: u8,
    pub text: Vec<u8>,
    pub timestamp: u64,
}

/// One edit instruction: an operation applied at `pointer` over
/// `num_bytes` bytes.
pub struct Instruction {
    pub pointer: usize,
    pub num_bytes: usize,
    pub operation: Operation,
}

/// The operation of one edit instruction.
pub enum Operation {
    /// An op byte the format does not define.
    Unknown,
    /// Overwrite with the given bytes.
    Replace(Vec<u8>),
    /// Overwrite with zeros.
    Blank,
    /// Overwrite with one repeated byte.
    SetTo(u8),
    /// Overwrite with bytes copied from another offset of the same buffer.
    Copy(usize),
}

/// What a write-back reports.
pub enum WritingStates {
    /// The encoded bytes equal what the folder already holds.
    NotNecessary,
    /// The record was written.
    Written,
    /// Another writer changed the file since it was last read; the encoded
    /// bytes are handed back for the caller to decide.
    Conflict(Vec<u8>),
}

// ---------------------------------------------------------------------
// Mathematical views
// ---------------------------------------------------------------------

/// View of an `Operation`.
#[verifier::ext_equal]
pub enum OperationV {
    Unknown,
    Replace(Seq<u8>),
    Blank,
    SetTo(u8),
    Copy(int),
}

/// View of an `Instruction`.
#[verifier::ext_equal]
pub struct InstructionV {
    pub pointer: int,
    pub num_bytes: int,
    pub operation: OperationV,
}

/// View of a `Head`.
#[verifier::ext_equal]
pub struct HeadV {
    pub name: Seq<u8>,
    pub branches: Seq<Seq<u8>>,
}

/// View of a `CommitInfo`.
#[verifier::ext_equal]
pub struct CommitInfoV {
    pub user_id: u32,
    pub device_id: u8,
    pub text: Seq<u8>,
    pub timestamp: u64,
}

/// View of a `RepoFileType`.
#[verifier::ext_equal]
pub enum AspectV {
    Head(HeadV),
    BranchHead,
    Edit(Seq<InstructionV>, int),
    EditNotProcessed(Seq<u8>),
    NewFile,
    Resize(u64),
    Delete,
    Rename(Seq<u8>),
    NewFolder(Seq<u8>),
    Folder(Seq<Seq<u8>>),
    CommitInfo(CommitInfoV),
    Missing,
}

/// View of a `RepoFile`.
#[verifier::ext_equal]
pub struct RepoFileV {
    pub version: u8,
    pub name: Seq<u8>,
    pub content: Seq<AspectV>,
    pub previous_commit: Seq<u8>,
    pub repo_file_hash: Seq<u8>,
}

impl View for Operation {
    type V = OperationV;

    open spec fn view(&self) -> OperationV {
        match self {
            Operation::Unknown => OperationV::Unknown,
            Operation::Replace(bytes) => OperationV::Replace(bytes@),
            Operation::Blank => OperationV::Blank,
            Operation::SetTo(v) => OperationV::SetTo(*v),
            Operation::Copy(p) => OperationV::Copy(*p as int),
        }
    }
}

impl DeepView for Operation {
    type V = OperationV;

    open spec fn deep_view(&self) -> OperationV {
        self.view()
    }
}

impl View for Instruction {
    type V = InstructionV;

    open spec fn view(&self) -> InstructionV {
        InstructionV {
            pointer: self.pointer as int,
            num_bytes: self.num_bytes as int,
            operation: self.operation@,
        }
    }
}

impl DeepView for Instruction {
    type V = InstructionV;

    open spec fn deep_view(&self) -> InstructionV {
        self.view()
    }
}

impl View for Head {
    type V = HeadV;

    open spec fn view(&self) -> HeadV {
        HeadV { name: self.name@, branches: self.branches.deep_view() }
    }
}

impl DeepView for Head {
    type V = HeadV;

    open spec fn deep_view(&self) -> HeadV {
        self.view()
    }
}

impl View for CommitInfo {
    type V = CommitInfoV;

    open spec fn view(&self) -> CommitInfoV {
        CommitInfoV {
            user_id: self.user_id,
            device_id: self.device_id,
            text: self.text@,
            timestamp: self.timestamp,
        }
    }
}

impl DeepView for CommitInfo {
    type V = CommitInfoV;

    open spec fn deep_view(&self) -> CommitInfoV {
        self.view()
    }
}

impl View for RepoFileType {
    type V = AspectV;

    open spec fn view(&self) -> AspectV {
        match self {
            RepoFileType::Head(h) => AspectV::Head(h@),
            RepoFileType::BranchHead => AspectV::BranchHead,
            RepoFileType::Edit(ins, p) => AspectV::Edit(ins.deep_view(), *p as int),
            RepoFileType::EditNotProcessed(b) => AspectV::EditNotProcessed(b@),
            RepoFileType::NewFile => AspectV::NewFile,
            RepoFileType::Resize(sz) => AspectV::Resize(*sz),
            RepoFileType::Delete => AspectV::Delete,
            RepoFileType::Rename(n) => AspectV::Rename(n@),
            RepoFileType::NewFolder(n) => AspectV::NewFolder(n@),
            RepoFileType::Folder(ids) => AspectV::Folder(ids.deep_view()),
            RepoFileType::CommitInfo(ci) => AspectV::CommitInfo(ci@),
            RepoFileType::Missing => AspectV::Missing,
        }
    }
}

impl DeepView for RepoFileType {
    type V = AspectV;

    open spec fn deep_view(&self) -> AspectV {
        self.view()
    }
}

impl View for RepoFile {
    type V = RepoFileV;

    open spec fn view(&self) -> RepoFileV {
        RepoFileV {
            version: self.version,
            name: self.name@,
            content: self.content.deep_view(),
            previous_commit: self.previous_commit@,
            repo_file_hash: self.repo_file_hash@,
        }
    }
}

impl DeepView for RepoFile {
    type V = RepoFileV;

    open spec fn deep_view(&self) -> RepoFileV {
        self.view()
    }
}

// ---------------------------------------------------------------------
// Cloning
// ---------------------------------------------------------------------

/// Copies a byte vector; spelled out so that the copy is known equal.
pub fn clone_bytes(v: &Vec<u8>) -> (r: Vec<u8>)
    ensures
        r@ == v@,
{
    let r = v.clone();
    proof {
        assert(r@ =~= v@);
    }
    r
}

/// Copies a list of byte vectors elementwise.
pub fn clone_byte_vecs(v: &Vec<Vec<u8>>) -> (r: Vec<Vec<u8>>)
    ensures
        r.deep_view() == v.deep_view(),
{
    let mut out: Vec<Vec<u8>> = Vec::new();
    let mut i: usize = 0;
    while i < v.len()
        invariant
            i <= v@.len(),
            out@.len() == i,
            forall|j: int| 0 <= j < i ==> out@[j]@ == v@[j]@,
        decreases v@.len() - i,
    {
        out.push(clone_bytes(&v[i]));
        i = i + 1;
    }
    proof {
        assert(out.deep_view() =~~= v.deep_view());
    }
    out
}

impl Clone for Operation {
    fn clone(&self) -> (r: Self)
        ensures
            r@ == self@,
    {
        match self {
            Operation::Unknown => Operation::Unknown,
            Operation::Replace(bytes) => Operation::Replace(clone_bytes(bytes)),
            Operation::Blank => Operation::Blank,
            Operation::SetTo(v) => Operation::SetTo(*v),
            Operation::Copy(p) => Operation::Copy(*p),
        }
    }
}

impl Clone for Instruction {
    fn clone(&self) -> (r: Self)
        ensures
            r@ == self@,
    {
        Instruction {
            pointer: self.pointer,
            num_bytes: self.num_bytes,
            operation: self.operation.clone(),
        }
    }
}

impl Clone for CommitInfo {
    fn clone(&self) -> (r: Self)
        ensures
            r@ == self@,
    {
        CommitInfo {
            user_id: self.user_id,
            device_id: self.device_id,
            text: clone_bytes(&self.text),
            timestamp: self.timestamp,
        }
    }
}

impl Clone for Head {
    fn clone(&self) -> (r: Self)
        ensures
            r@ == self@,
    {
        let r = Head { name: clone_bytes(&self.name), branches: clone_byte_vecs(&self.branches) };
        proof {
            assert(r@ =~= self@);
        }
        r
    }
}

/// Copies a list of instructions elementwise.
pub fn clone_instructions(v: &Vec<Instruction>) -> (r: Vec<Instruction>)
    ensures
        r.deep_view() == v.deep_view(),
{
    let mut out: Vec<Instruction> = Vec::new();
    let mut i: usize = 0;
    while i < v.len()
        invariant
            i <= v@.len(),
            out@.len() == i,
            forall|j: int| 0 <= j < i ==> out@[j]@ == v@[j]@,
        decreases v@.len() - i,
    {
        out.push(v[i].clone());
        i = i + 1;
    }
    proof {
        assert(out.deep_view() =~~= v.deep_view());
    }
    out
}

/// Copies a list of commit identifiers elementwise.
pub fn clone_cids(v: &Vec<U232>) -> (r: Vec<U232>)
    ensures
        r@ == v@,
{
    let mut out: Vec<U232> = Vec::new();
    let mut i: usize = 0;
    while i < v.len()
        invariant
            i <= v@.len(),
            out@.len() == i,
            forall|j: int| 0 <= j < i ==> out@[j] == v@[j],
        decreases v@.len() - i,
    {
        out.push(v[i]);
        i = i + 1;
    }
    proof {
        assert(out@ =~= v@);
    }
    out
}

impl Clone for RepoFileType {
    fn clone(&self) -> (r: Self)
        ensures
            r@ == self@,
    {
        let r = match self {
            RepoFileType::Head(h) => RepoFileType::Head(h.clone()),
            RepoFileType::BranchHead => RepoFileType::BranchHead,
            RepoFileType::Edit(ins, p) => RepoFileType::Edit(clone_instructions(ins), *p),
            RepoFileType::EditNotProcessed(b) => RepoFileType::EditNotProcessed(clone_bytes(b)),
            RepoFileType::NewFile => RepoFileType::NewFile,
            RepoFileType::Resize(sz) => RepoFileType::Resize(*sz),
            RepoFileType::Delete => RepoFileType::Delete,
            RepoFileType::Rename(n) => RepoFileType::Rename(clone_bytes(n)),
            RepoFileType::NewFolder(n) => RepoFileType::NewFolder(clone_bytes(n)),
            RepoFileType::Folder(ids) => RepoFileType::Folder(clone_cids(ids)),
            RepoFileType::CommitInfo(ci) => RepoFileType::CommitInfo(ci.clone()),
            RepoFileType::Missing => RepoFileType::Missing,
        };
        proof {
            assert(r@ =~~= self@);
        }
        r
    }
}

/// Copies a record's aspect list elementwise.
pub fn clone_content(v: &Vec<RepoFileType>) -> (r: Vec<RepoFileType>)
    ensures
        r.deep_view() == v.deep_view(),
{
    let mut out: Vec<RepoFileType> = Vec::new();
    let mut i: usize = 0;
    while i < v.len()
        invariant
            i <= v@.len(),
            out@.len() == i,
            forall|j: int| 0 <= j < i ==> out@[j]@ == v@[j]@,
        decreases v@.len() - i,
    {
        out.push(v[i].clone());
        i = i + 1;
    }
    proof {
        assert(out.deep_view() =~~= v.deep_view());
    }
    out
}

impl Clone for RepoFile {
    fn clone(&self) -> (r: Self)
        ensures
            r@ == self@,
    {
        let r = RepoFile {
            version: self.version,
            name: clone_bytes(&self.name),
            content: clone_content(&self.content),
            previous_commit: self.previous_commit,
            repo_file_hash: self.repo_file_hash,
        };
        proof {
            assert(r@ =~~= self@);
        }
        r
    }
}

impl CommitInfo {
    /// The commit message.
    pub fn get_text(&self) -> (r: Vec<u8>)
        ensures
            r@ == self.text@,
    {
        clone_bytes(&self.text)
    }

    /// The committing user.
    pub fn get_user(&self) -> (r: u32)
        ensures
            r == self.user_id,
    {
        self.user_id
    }

    /// The committing device.
    pub fn get_device(&self) -> (r: u8)
        ensures
            r == self.device_id,
    {
        self.device_id
    }

    /// The stored timestamp: absolute on an origin, a delta otherwise.
    pub fn get_timestamp(&self) -> (r: u64)
        ensures
            r == self.timestamp,
    {
        self.timestamp
    }

    /// Builds commit metadata from its parts.
    pub fn new(user_id: u32, device_id: u8, text: Vec<u8>, timestamp: u64) -> (r: CommitInfo)
        ensures
            r.user_id == user_id,
            r.device_id == device_id,
            r.text@ == text@,
            r.timestamp == timestamp,
    {
        CommitInfo { user_id, device_id, text, timestamp }
    }
}

// ---------------------------------------------------------------------
// Aspect lookup
// ---------------------------------------------------------------------

/// The numeric tag of an aspect, as used in the record type mask.
pub open spec fn spec_type_code(t: AspectV) -> u8 {
    match t {
        AspectV::Head(_) => 0x00,
        AspectV::BranchHead => 0x01,
        AspectV::Edit(_, _) => 0x02,
        AspectV::EditNotProcessed(_) => 0x02,
        AspectV::NewFile => 0x03,
        AspectV::Rename(_) => 0x04,
        AspectV::Delete => 0x05,
        AspectV::Resize(_) => 0x08,
        AspectV::NewFolder(_) => 0x0D,
        AspectV::Folder(_) => 0x0F,
        AspectV::CommitInfo(_) => 0x10,
        AspectV::Missing => 0xFF,
    }
}

/// The first element of `content` tagged `typ`, or `Missing`.
pub open spec fn spec_get_type(content: Seq<AspectV>, typ: u8) -> AspectV
    decreases content.len(),
{
    if content.len() == 0 {
        AspectV::Missing
    } else if spec_type_code(content[0]) == typ {
        content[0]
    } else {
        spec_get_type(content.drop_first(), typ)
    }
}

/// Shorthand for the aspect lookup on a record view.
pub open spec fn aspect_of(f: RepoFileV, typ: u8) -> AspectV {
    spec_get_type(f.content, typ)
}

impl RepoFile {
    /// The record's file name bytes.
    pub fn get_name(&self) -> (r: &Vec<u8>)
        ensures
            r@ == self.name@,
    {
        &self.name
    }

    /// The record this one chains back to.
    pub fn get_previous_commit(&self) -> (r: U232)
        ensures
            r == self.previous_commit,
    {
        self.previous_commit
    }

    /// The record's aspects in decode order.
    pub fn get_content(&self) -> (r: &Vec<RepoFileType>)
        ensures
            r.deep_view() == self.content.deep_view(),
    {
        &self.content
    }

    /// A copy of this record carrying other aspects.
    pub fn clone_with_content(&self, content: Vec<RepoFileType>) -> (r: RepoFile)
        ensures
            r.version == self.version,
            r.name@ == self.name@,
            r.content.deep_view() == content.deep_view(),
            r.previous_commit == self.previous_commit,
            r.repo_file_hash == self.repo_file_hash,
    {
        RepoFile {
            version: self.version,
            name: clone_bytes(&self.name),
            content,
            previous_commit: self.previous_commit,
            repo_file_hash: self.repo_file_hash,
        }
    }

    /// A copy of this record chaining back to another commit.
    pub fn clone_with_prev_commit(&self, prev_commit: U232) -> (r: RepoFile)
        ensures
            r.version == self.version,
            r.name@ == self.name@,
            r.content.deep_view() == self.content.deep_view(),
            r.previous_commit == prev_commit,
            r.repo_file_hash == self.repo_file_hash,
    {
        RepoFile {
            version: self.version,
            name: clone_bytes(&self.name),
            content: clone_content(&self.content),
            previous_commit: prev_commit,
            repo_file_hash: self.repo_file_hash,
        }
    }

    /// Builds a record from its parts.
    pub fn new(
        version: u8,
        name: Vec<u8>,
        content: Vec<RepoFileType>,
        previous_commit: U232,
        repo_file_hash: U232,
    ) -> (r: RepoFile)
        ensures
            r.version == version,
            r.name@ == name@,
            r.content.deep_view() == content.deep_view(),
            r.previous_commit == previous_commit,
            r.repo_file_hash == repo_file_hash,
    {
        RepoFile { version, name, content, previous_commit, repo_file_hash }
    }

    /// Looks up the first aspect with the given tag, `Missing` when the
    /// record does not carry the kind.
    pub fn get_type(&self, typ: u8) -> (r: &RepoFileType)
        ensures
            r@ == spec_get_type(self.content.deep_view(), typ),
    {
        let n = self.content.len();
        let mut i: usize = 0;
        proof {
            assert(self.content.deep_view().subrange(0, n as int) =~= self.content.deep_view());
        }
        while i < n
            invariant
                i <= n,
                n == self.content@.len(),
                spec_get_type(self.content.deep_view(), typ) == spec_get_type(
                    self.content.deep_view().subrange(i as int, n as int),
                    typ,
                ),
            decreases n - i,
        {
            let element = &self.content[i];
            let code: u8 = match element {
                RepoFileType::Head(_) => 0x00,
                RepoFileType::BranchHead => 0x01,
                RepoFileType::Edit(_, _) => 0x02,
                RepoFileType::EditNotProcessed(_) => 0x02,
                RepoFileType::NewFile => 0x03,
                RepoFileType::Rename(_) => 0x04,
                RepoFileType::Delete => 0x05,
                RepoFileType::Resize(_) => 0x08,
                RepoFileType::NewFolder(_) => 0x0D,
                RepoFileType::Folder(_) => 0x0F,
                RepoFileType::CommitInfo(_) => 0x10,
                RepoFileType::Missing => 0xFF,
            };
            proof {
                assert(self.content.deep_view().subrange(i as int, n as int)[0]
                    == self.content.deep_view()[i as int]);
            }
            if code == typ {
                return &self.content[i];
            }
            proof {
                assert(self.content.deep_view().subrange(i as int, n as int).drop_first()
                    =~= self.content.deep_view().subrange(i + 1, n as int));
            }
            i = i + 1;
        }
        proof {
            assert(self.content.deep_view().subrange(n as int, n as int)
                =~= Seq::<AspectV>::empty());
        }
        &RepoFileType::Missing
    }
}

// ---------------------------------------------------------------------
// Instruction replay
// ---------------------------------------------------------------------

/// `s` with `patch` written over its positions from `at` on; positions
/// outside the patch keep their bytes.
pub open spec fn overwrite(s: Seq<u8>, at: int, patch: Seq<u8>) -> Seq<u8> {
    Seq::new(s.len(), |i: int| if at <= i < at + patch.len() {
        patch[i - at]
    } else {
        s[i]
    })
}

/// The in-place copy loop of a `Copy` instruction, one byte a step; when
/// source and target ranges overlap, later steps read bytes the earlier
/// ones already wrote.
pub open spec fn spec_copy_loop(s: Seq<u8>, ptr: int, src: int, n: int, i: int) -> Seq<u8>
    decreases n - i,
{
    if i < 0 || i >= n || ptr + i >= s.len() || src + i >= s.len() {
        s
    } else {
        spec_copy_loop(s.update(ptr + i, s[src + i]), ptr, src, n, i + 1)
    }
}

/// What replaying one instruction over a buffer yields. A pointer outside
/// the buffer makes the instruction a no-op; an edit area reaching past
/// the end is clamped.
pub open spec fn spec_run_instruction(ins: InstructionV, s: Seq<u8>) -> Seq<u8> {
    if ins.pointer >= s.len() || ins.pointer < 0 {
        s
    } else {
        let n = if ins.pointer + ins.num_bytes > s.len() {
            s.len() - ins.pointer
        } else {
            ins.num_bytes
        };
        match ins.operation {
            OperationV::Replace(bytes) => {
                let m = if n > bytes.len() {
                    bytes.len() as int
                } else {
                    n
                };
                overwrite(s, ins.pointer, bytes.subrange(0, m))
            },
            OperationV::Blank => overwrite(s, ins.pointer, Seq::new(n as nat, |i: int| 0u8)),
            OperationV::SetTo(byte) => overwrite(s, ins.pointer, Seq::new(n as nat, |i: int| byte)),
            OperationV::Copy(other) => {
                if other >= s.len() || other < 0 {
                    s
                } else {
                    let n2 = if other + n > s.len() {
                        s.len() - other
                    } else {
                        n
                    };
                    spec_copy_loop(s, ins.pointer, other, n2, 0)
                }
            },
            OperationV::Unknown => s,
        }
    }
}

impl Instruction {
    /// Builds an instruction from its parts.
    pub fn new(pointer: usize, num_bytes: usize, operation: Operation) -> (r: Instruction)
        ensures
            r.pointer == pointer,
            r.num_bytes == num_bytes,
            r.operation == operation,
    {
        Instruction { pointer, num_bytes, operation }
    }

    /// Replays this instruction over the buffer in place.
    pub fn run_instruction(&self, data: &mut Vec<u8>)
        ensures
            final(data)@ == spec_run_instruction(self@, old(data)@),
    {
        if self.pointer >= data.len() {
            return ;
        }
        let num_bytes: usize = if self.num_bytes > data.len() - self.pointer {
            data.len() - self.pointer
        } else {
            self.num_bytes
        };

        match &self.operation {
            Operation::Replace(bytes) => {
                let m: usize = if num_bytes > bytes.len() {
                    bytes.len()
                } else {
                    num_bytes
                };
                let ghost patch = bytes@.subrange(0, m as int);
                let mut index: usize = 0;
                while index < m
                    invariant
                        m <= bytes@.len(),
                        data@.len() <= usize::MAX,
                        self.pointer + m <= data@.len(),
                        index <= m,
                        data@.len() == old(data)@.len(),
                        patch == bytes@.subrange(0, m as int),
                        forall|j: int|
                            0 <= j < data@.len() ==> data@[j] == (if self.pointer <= j
                                < self.pointer + index {
                                patch[j - self.pointer]
                            } else {
                                old(data)@[j]
                            }),
                    decreases m - index,
                {
                    let v = bytes[index];
                    data.set(self.pointer + index, v);
                    index = index + 1;
                }
                proof {
                    assert(data@ =~= overwrite(old(data)@, self.pointer as int, patch));
                }
            },
            Operation::Blank => {
                let mut index: usize = 0;
                while index < num_bytes
                    invariant
                        data@.len() <= usize::MAX,
                        self.pointer + num_bytes <= data@.len(),
                        index <= num_bytes,
                        data@.len() == old(data)@.len(),
                        forall|j: int|
                            0 <= j < data@.len() ==> data@[j] == (if self.pointer <= j
                                < self.pointer + index {
                                0u8
                            } else {
                                old(data)@[j]
                            }),
                    decreases num_bytes - index,
                {
                    data.set(self.pointer + index, 0x00);
                    index = index + 1;
                }
                proof {
                    assert(data@ =~= overwrite(
                        old(data)@,
                        self.pointer as int,
                        Seq::new(num_bytes as nat, |i: int| 0u8),
                    ));
                }
            },
            Operation::SetTo(byte) => {
                let byte = *byte;
                let mut index: usize = 0;
                while index < num_bytes
                    invariant
                        data@.len() <= usize::MAX,
                        self.pointer + num_bytes <= data@.len(),
                        index <= num_bytes,
                        data@.len() == old(data)@.len(),
                        forall|j: int|
                            0 <= j < data@.len() ==> data@[j] == (if self.pointer <= j
                                < self.pointer + index {
                                byte
                            } else {
                                old(data)@[j]
                            }),
                    decreases num_bytes - index,
                {
                    data.set(self.pointer + index, byte);
                    index = index + 1;
                }
                proof {
                    assert(data@ =~= overwrite(
                        old(data)@,
                        self.pointer as int,
                        Seq::new(num_bytes as nat, |i: int| byte),
                    ));
                }
            },
            Operation::Copy(other_pointer) => {
                let other_pointer = *other_pointer;
                if other_pointer >= data.len() {
                    return ;
                }
                let num_bytes: usize = if num_bytes > data.len() - other_pointer {
                    data.len() - other_pointer
                } else {
                    num_bytes
                };
                let mut index: usize = 0;
                while index < num_bytes
                    invariant
                        old(data)@.len() <= usize::MAX,
                        self.pointer < old(data)@.len(),
                        other_pointer < old(data)@.len(),
                        self.pointer + num_bytes <= old(data)@.len(),
                        other_pointer + num_bytes <= old(data)@.len(),
                        index <= num_bytes,
                        data@.len() == old(data)@.len(),
                        spec_copy_loop(
                            old(data)@,
                            self.pointer as int,
                            other_pointer as int,
                            num_bytes as int,
                            0,
                        ) == spec_copy_loop(
                            data@,
                            self.pointer as int,
                            other_pointer as int,
                            num_bytes as int,
                            index as int,
                        ),
                    decreases num_bytes - index,
                {
                    let v = data[other_pointer + index];
                    data.set(self.pointer + index, v);
                    index = index + 1;
                }
            },
            Operation::Unknown => {},
        }
    }
}

} // verus!
