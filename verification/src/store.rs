//! The in-memory image of one repository folder: the named record files
//! it holds, plus the ordered log of writes for a caller to persist. All
//! repository logic reads and writes records through this image; pulling
//! the folder from disk and pushing the write log back is the caller's
//! side of the bargain.

use vstd::prelude::*;

verus! {

/// Compares two byte strings.
pub fn bytes_eq(a: &Vec<u8>, b: &Vec<u8>) -> (r: bool)
    ensures
        r <==> a@ == b@,
{
    if a.len() != b.len() {
        return false;
    }
    let mut i: usize = 0;
    while i < a.len()
        invariant
            a@.len() == b@.len(),
            i <= a@.len(),
            forall|j: int| 0 <= j < i ==> a@[j] == b@[j],
        decreases a@.len() - i,
    {
        if a[i] != b[i] {
            return false;
        }
        i = i + 1;
    }
    proof {
        assert(a@ =~= b@);
    }
    true
}

/// The first entry with the given name, if any.
pub open spec fn spec_find(entries: Seq<(Seq<u8>, Seq<u8>)>, name: Seq<u8>) -> Option<Seq<u8>>
    decreases entries.len(),
{
    if entries.len() == 0 {
        Option::None
    } else if entries[0].0 == name {
        Option::Some(entries[0].1)
    } else {
        spec_find(entries.drop_first(), name)
    }
}

/// An in-memory image of a repository folder.
pub struct RepoStore {
    /// The folder's files: name bytes and content bytes, unique names.
    pub files: Vec<(Vec<u8>, Vec<u8>)>,
    /// Every write since the image was loaded, oldest first, for the
    /// caller to persist in order.
    pub writes: Vec<(Vec<u8>, Vec<u8>)>,
}

impl View for RepoStore {
    type V = Seq<(Seq<u8>, Seq<u8>)>;

    open spec fn view(&self) -> Seq<(Seq<u8>, Seq<u8>)> {
        Seq::new(self.files@.len(), |i: int| (self.files@[i].0@, self.files@[i].1@))
    }
}

impl RepoStore {
    /// The image's contents as a name-to-content map.
    pub open spec fn contents(&self) -> Seq<(Seq<u8>, Seq<u8>)> {
        self@
    }

    /// What the image holds under a name.
    pub open spec fn spec_read(&self, name: Seq<u8>) -> Option<Seq<u8>> {
        spec_find(self@, name)
    }

    /// An empty image.
    pub fn new() -> (r: RepoStore)
        ensures
            r@ == Seq::<(Seq<u8>, Seq<u8>)>::empty(),
            r.writes@.len() == 0,
    {
        let r = RepoStore { files: Vec::new(), writes: Vec::new() };
        proof {
            assert(r@ =~= Seq::<(Seq<u8>, Seq<u8>)>::empty());
        }
        r
    }

    /// Adds a file to a freshly loaded image without logging a write.
    pub fn preload(&mut self, name: Vec<u8>, bytes: Vec<u8>)
        ensures
            final(self)@ == old(self)@.push((name@, bytes@)),
            final(self).writes@ == old(self).writes@,
    {
        self.files.push((name, bytes));
        proof {
            assert(self@ =~= old(self)@.push((self.files@.last().0@, self.files@.last().1@)));
        }
    }

    /// Whether the image holds a file under the name.
    pub fn has_file(&self, name: &Vec<u8>) -> (r: bool)
        ensures
            r <==> self.spec_read(name@) is Some,
    {
        let mut i: usize = 0;
        proof {
            assert(self@.subrange(0, self@.len() as int) =~= self@);
        }
        while i < self.files.len()
            invariant
                i <= self.files@.len(),
                self@.len() == self.files@.len(),
                spec_find(self@, name@) == spec_find(
                    self@.subrange(i as int, self@.len() as int),
                    name@,
                ),
            decreases self.files@.len() - i,
        {
            proof {
                assert(self@.subrange(i as int, self@.len() as int)[0] == self@[i as int]);
            }
            if bytes_eq(&self.files[i].0, name) {
                return true;
            }
            proof {
                assert(self@.subrange(i as int, self@.len() as int).drop_first()
                    =~= self@.subrange(i + 1, self@.len() as int));
            }
            i = i + 1;
        }
        proof {
            assert(self@.subrange(self@.len() as int, self@.len() as int)
                =~= Seq::<(Seq<u8>, Seq<u8>)>::empty());
        }
        false
    }

    /// The content under the name, if the image holds the file.
    pub fn read(&self, name: &Vec<u8>) -> (r: Option<Vec<u8>>)
        ensures
            r is Some <==> self.spec_read(name@) is Some,
            r is Some ==> r->0@ == self.spec_read(name@)->0,
    {
        let mut i: usize = 0;
        proof {
            assert(self@.subrange(0, self@.len() as int) =~= self@);
        }
        while i < self.files.len()
            invariant
                i <= self.files@.len(),
                self@.len() == self.files@.len(),
                spec_find(self@, name@) == spec_find(
                    self@.subrange(i as int, self@.len() as int),
                    name@,
                ),
            decreases self.files@.len() - i,
        {
            proof {
                assert(self@.subrange(i as int, self@.len() as int)[0] == self@[i as int]);
            }
            if bytes_eq(&self.files[i].0, name) {
                return Some(crate::record::clone_bytes(&self.files[i].1));
            }
            proof {
                assert(self@.subrange(i as int, self@.len() as int).drop_first()
                    =~= self@.subrange(i + 1, self@.len() as int));
            }
            i = i + 1;
        }
        proof {
            assert(self@.subrange(self@.len() as int, self@.len() as int)
                =~= Seq::<(Seq<u8>, Seq<u8>)>::empty());
        }
        None
    }

    /// Writes content under a name, replacing an existing file of that
    /// name, and logs the write.
    pub fn write(&mut self, name: Vec<u8>, bytes: Vec<u8>)
        ensures
            final(self).spec_read(name@) == Option::Some(bytes@),
            forall|other: Seq<u8>|
                other != name@ ==> #[trigger] final(self).spec_read(other) == old(self).spec_read(
                    other,
                ),
            final(self).writes@.len() == old(self).writes@.len() + 1,
            final(self).writes@.last().0@ == name@,
            final(self).writes@.last().1@ == bytes@,
            forall|j: int|
                0 <= j < old(self).writes@.len() ==> #[trigger] final(self).writes@[j] == old(
                    self,
                ).writes@[j],
    {
        let mut i: usize = 0;
        let n = self.files.len();
        let mut found: Option<usize> = None;
        while i < n
            invariant_except_break
                found is None,
            invariant
                i <= n,
                n == self.files@.len(),
                self@.len() == self.files@.len(),
                forall|j: int| 0 <= j < i ==> (#[trigger] self@[j]).0 != name@,
            ensures
                found is Some ==> found->0 < n && self@[found->0 as int].0 == name@ && forall|
                    j: int,
                |
                    0 <= j < found->0 ==> (#[trigger] self@[j]).0 != name@,
                found is None ==> forall|j: int|
                    0 <= j < self@.len() ==> (#[trigger] self@[j]).0 != name@,
            decreases n - i,
        {
            if bytes_eq(&self.files[i].0, &name) {
                found = Some(i);
                break ;
            }
            i = i + 1;
        }
        let ghost pre = self@;
        if let Some(idx) = found {
            let nb = crate::record::clone_bytes(&bytes);
            let nn = crate::record::clone_bytes(&name);
            self.files.set(idx, (nn, nb));
            proof {
                assert(self@ =~= pre.update(idx as int, (name@, bytes@)));
                lemma_find_update(pre, idx as int, name@, bytes@);
            }
        } else {
            let nb = crate::record::clone_bytes(&bytes);
            let nn = crate::record::clone_bytes(&name);
            self.files.push((nn, nb));
            proof {
                assert(self@ =~= pre.push((name@, bytes@)));
                lemma_find_push(pre, name@, bytes@);
            }
        }
        self.writes.push((name, bytes));
    }
}

/// Updating the entry that holds a name changes what lookups of that name
/// see and nothing else, provided earlier entries carry other names.
proof fn lemma_find_update(entries: Seq<(Seq<u8>, Seq<u8>)>, idx: int, name: Seq<u8>, bytes: Seq<u8>)
    requires
        0 <= idx < entries.len(),
        entries[idx].0 == name,
        forall|j: int| 0 <= j < idx ==> (#[trigger] entries[j]).0 != name,
    ensures
        spec_find(entries.update(idx, (name, bytes)), name) == Option::Some(bytes),
        forall|other: Seq<u8>|
            other != name ==> #[trigger] spec_find(entries.update(idx, (name, bytes)), other)
                == spec_find(entries, other),
    decreases entries.len(),
{
    let upd = entries.update(idx, (name, bytes));
    if idx == 0 {
        assert(upd[0] == (name, bytes));
        assert(upd[0].0 == name && upd[0].1 == bytes);
        assert(spec_find(upd, name) == Option::Some(bytes));
        assert(entries[0].0 == name);
        assert forall|other: Seq<u8>| other != name implies #[trigger] spec_find(upd, other)
            == spec_find(entries, other) by {
            assert(upd.drop_first() =~= entries.drop_first());
        }
    } else {
        assert(upd[0] == entries[0]);
        assert(entries[0].0 != name);
        assert(upd.drop_first() =~= entries.drop_first().update(idx - 1, (name, bytes)));
        lemma_find_update(entries.drop_first(), idx - 1, name, bytes);
        assert(spec_find(upd, name) == spec_find(upd.drop_first(), name));
        assert forall|other: Seq<u8>| other != name implies #[trigger] spec_find(upd, other)
            == spec_find(entries, other) by {
            if entries[0].0 != other {
                assert(spec_find(upd, other) == spec_find(upd.drop_first(), other));
                assert(spec_find(entries, other) == spec_find(entries.drop_first(), other));
            }
        }
    }
}

/// Appending an entry serves lookups of its name only when no earlier
/// entry holds it, and leaves other lookups alone.
proof fn lemma_find_push(entries: Seq<(Seq<u8>, Seq<u8>)>, name: Seq<u8>, bytes: Seq<u8>)
    requires
        forall|j: int| 0 <= j < entries.len() ==> (#[trigger] entries[j]).0 != name,
    ensures
        spec_find(entries.push((name, bytes)), name) == Option::Some(bytes),
        forall|other: Seq<u8>|
            other != name ==> #[trigger] spec_find(entries.push((name, bytes)), other) == spec_find(
                entries,
                other,
            ),
    decreases entries.len(),
{
    let p = entries.push((name, bytes));
    if entries.len() == 0 {
        assert(p[0] == (name, bytes));
        assert(p[0].0 == name && p[0].1 == bytes);
        assert(spec_find(p, name) == Option::Some(bytes));
        assert forall|other: Seq<u8>| other != name implies #[trigger] spec_find(p, other)
            == spec_find(entries, other) by {
            assert(p[0].0 == name);
            assert(spec_find(p, other) == spec_find(p.drop_first(), other));
            assert(p.drop_first() =~= Seq::<(Seq<u8>, Seq<u8>)>::empty());
            assert(spec_find(p.drop_first(), other) is None);
        }
    } else {
        assert(p[0] == entries[0]);
        assert(entries[0].0 != name);
        assert(p.drop_first() =~= entries.drop_first().push((name, bytes)));
        lemma_find_push(entries.drop_first(), name, bytes);
        assert(spec_find(p, name) == spec_find(p.drop_first(), name));
        assert forall|other: Seq<u8>| other != name implies #[trigger] spec_find(p, other)
            == spec_find(entries, other) by {
            if entries[0].0 != other {
                assert(spec_find(p, other) == spec_find(p.drop_first(), other));
                assert(spec_find(entries, other) == spec_find(entries.drop_first(), other));
            }
        }
    }
}

} // verus!
