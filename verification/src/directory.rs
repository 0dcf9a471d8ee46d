//! The files of the store's root directory, held as plain values.
//!
//! A `Directory` is what the store reads and writes in place of the disk.
//! Whoever owns the real directory fills one with the names and bytes of the
//! files found there, and afterwards writes back what has changed: files
//! only ever grow at their end, appear, or disappear.
use vstd::prelude::*;
use crate::assoc::AssocList;

verus! {

/// The files of one directory: each name with the bytes of the file.
#[derive(Debug)]
pub struct Directory {
    files: AssocList<Vec<u8>>,
}

impl View for Directory {
    type V = Map<Seq<char>, Seq<u8>>;

    closed spec fn view(&self) -> Map<Seq<char>, Seq<u8>> {
        Map::new(
            |name: Seq<char>| self.files@.contains_key(name),
            |name: Seq<char>| self.files@[name]@,
        )
    }
}

/// The bytes of a file, none for a file that is not there.
pub open spec fn file_or_empty(files: Map<Seq<char>, Seq<u8>>, name: Seq<char>) -> Seq<u8> {
    if files.contains_key(name) {
        files[name]
    } else {
        Seq::empty()
    }
}

impl Directory {
    /// No name occurs twice.
    pub closed spec fn wf(&self) -> bool {
        self.files.wf()
    }

    /// A directory holds finitely many files, none longer than memory allows.
    pub proof fn lemma_bounds(&self)
        requires
            self.wf(),
        ensures
            self@.dom().finite(),
            forall|name: Seq<char>| self@.contains_key(name) ==> (#[trigger] self@[name]).len() <= usize::MAX,
    {
        self.files.lemma_finite();
        assert(self@.dom() =~= self.files@.dom());
        assert forall|name: Seq<char>| self@.contains_key(name) implies (#[trigger] self@[name]).len()
            <= usize::MAX by {
            assert(self.files@[name].len() == self.files@[name]@.len());
        }
    }

    /// The empty directory.
    pub fn new() -> (dir: Directory)
        ensures
            dir.wf(),
            dir@ == Map::<Seq<char>, Seq<u8>>::empty(),
    {
        let dir = Directory { files: AssocList::new() };
        assert(dir@ =~= Map::<Seq<char>, Seq<u8>>::empty());
        dir
    }

    /// The names of the files, in no particular order, each once.
    pub fn names(&self) -> (names: Vec<String>)
        requires
            self.wf(),
        ensures
            forall|i: int| 0 <= i < names.len() ==> self@.contains_key(#[trigger] names[i]@),
            forall|name: Seq<char>|
                self@.contains_key(name) ==> exists|i: int|
                    0 <= i < names.len() && #[trigger] names[i]@ == name,
            forall|i: int, j: int| 0 <= i < j < names.len() ==> names[i]@ != names[j]@,
    {
        let mut names: Vec<String> = Vec::new();
        let n: usize = self.files.len();
        let mut i: usize = 0;
        while i < n
            invariant
                self.wf(),
                n == self.files.spec_len(),
                i <= n,
                names.len() == i,
                forall|j: int| 0 <= j < i ==> (#[trigger] names[j]@) == self.files.spec_key(j),
            decreases n - i,
        {
            let name = self.files.key(i).clone();
            names.push(name);
            i += 1;
        }
        proof {
            assert forall|i: int| 0 <= i < names.len() implies self@.contains_key(
                #[trigger] names[i]@,
            ) by {
                self.files.lemma_entry(i);
            }
            assert forall|name: Seq<char>| self@.contains_key(name) implies exists|i: int|
                0 <= i < names.len() && #[trigger] names[i]@ == name by {
                let i = self.files.lemma_place(name);
                assert(names[i]@ == name);
            }
            assert forall|i: int, j: int| 0 <= i < j < names.len() implies names[i]@
                != names[j]@ by {
                if names[i]@ == names[j]@ {
                    self.files.lemma_distinct(i, j);
                }
            }
        }
        names
    }

    /// True where a file of this name is there.
    pub fn contains(&self, name: &String) -> (yes: bool)
        requires
            self.wf(),
        ensures
            yes == self@.contains_key(name@),
    {
        self.files.find(name).is_some()
    }

    /// The bytes of a file.
    pub fn read(&self, name: &String) -> (found: Option<&Vec<u8>>)
        requires
            self.wf(),
        ensures
            found matches Some(data) ==> self@.contains_key(name@) && data@ == self@[name@],
            found is None ==> !self@.contains_key(name@),
    {
        self.files.get(name)
    }

    /// Puts a file into the directory, in place of one of the same name.
    pub fn write(&mut self, name: String, data: Vec<u8>)
        requires
            old(self).wf(),
        ensures
            final(self).wf(),
            final(self)@ == old(self)@.insert(name@, data@),
    {
        let ghost before = self@;
        self.files.insert(name, data);
        assert(self@ =~= before.insert(name@, data@));
    }

    /// Writes bytes at the end of a file, which is made if it is not there.
    /// Gives the length that the file had, and the length that it has.
    pub fn append(&mut self, name: String, bytes: Vec<u8>) -> (lengths: (usize, usize))
        requires
            old(self).wf(),
        ensures
            final(self).wf(),
            final(self)@ == old(self)@.insert(name@, file_or_empty(old(self)@, name@) + bytes@),
            lengths.0 == file_or_empty(old(self)@, name@).len(),
            lengths.1 == lengths.0 + bytes@.len(),
    {
        let ghost before = self@;
        let ghost added = bytes@;
        let mut bytes = bytes;
        let taken = self.files.remove(&name);
        let mut data: Vec<u8> = match taken {
            Some(data) => data,
            None => Vec::new(),
        };
        assert(data@ == file_or_empty(before, name@));
        let was: usize = data.len();
        data.append(&mut bytes);
        let is: usize = data.len();
        self.files.insert(name, data);
        assert(self@ =~= before.insert(name@, file_or_empty(before, name@) + added));
        (was, is)
    }

    /// Takes a file out of the directory. True where it was there.
    pub fn remove(&mut self, name: &String) -> (was_there: bool)
        requires
            old(self).wf(),
        ensures
            final(self).wf(),
            final(self)@ == old(self)@.remove(name@),
            was_there == old(self)@.contains_key(name@),
    {
        let ghost before = self@;
        let taken = self.files.remove(name);
        assert(self@ =~= before.remove(name@));
        taken.is_some()
    }
}

} // verus!
