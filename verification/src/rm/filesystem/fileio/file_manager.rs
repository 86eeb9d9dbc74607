//! The table of open files and the pool of type numbers. Reading and writing the files
//! themselves is the caller's part; this keeps which file number is free and which name
//! each open number stands for.
use vstd::prelude::*;
use crate::rm::filesystem::pagedef::{MAX_FILE_NUM, MAX_TYPE_NUM};
use crate::rm::filesystem::utils::bitmap::{Bitmap, levels, cnt, ioff, inner_words, well_layered};

verus! {

pub struct FileManager {
    fd: Vec<Option<String>>,
    fm: Bitmap,
    tm: Bitmap,
}

/// The name a file number stands for, by its view.
pub open spec fn name_view(o: Option<String>) -> Option<Seq<char>> {
    match o {
        Some(s) => Some(s@),
        None => None,
    }
}

proof fn lemma_small_bitmap(s: nat)
    requires
        s <= 32,
    ensures
        levels(s) == 0,
        well_layered(s),
        inner_words(s) == 1,
{
    assert(ioff(s, 1) == 0);
}

impl FileManager {
    /// The name each file number stands for.
    pub closed spec fn names(self) -> Seq<Option<Seq<char>>> {
        self.fd@.map_values(|o: Option<String>| name_view(o))
    }

    /// Whether file number `id` is free.
    pub closed spec fn file_free(self, id: int) -> bool {
        self.fm.is_one(id)
    }

    /// Whether type number `id` is free.
    pub closed spec fn type_free(self, id: int) -> bool {
        self.tm.is_one(id)
    }

    /// The lowest free file number.
    pub closed spec fn first_free_file(self) -> int {
        self.fm.first_one()
    }

    /// The lowest free type number.
    pub closed spec fn first_free_type(self) -> int {
        self.tm.first_one()
    }

    /// A file can be opened: some number is free and the lowest one can be found (its
    /// position in its 32-bit word is not the last, nor is its word the last of its group).
    pub closed spec fn can_open(self) -> bool {
        (exists|x: int| 0 <= x < self.fm.len() && self.fm.is_one(x)) && crate::rm::filesystem::utils::bitmap::digits_ok(
            self.fm.first_one(),
            self.fm.depth(),
        )
    }

    /// A type number can be handed out, as `can_open` says of files.
    pub closed spec fn can_new_type(self) -> bool {
        (exists|x: int| 0 <= x < self.tm.len() && self.tm.is_one(x)) && crate::rm::filesystem::utils::bitmap::digits_ok(
            self.tm.first_one(),
            self.tm.depth(),
        )
    }

    pub closed spec fn inv(self) -> bool {
        &&& self.fm.inv()
        &&& self.tm.inv()
        &&& self.fm.len() == MAX_FILE_NUM
        &&& self.tm.len() == MAX_TYPE_NUM
        &&& self.fd@.len() == MAX_FILE_NUM
    }

    /// No file open, every file and type number free.
    pub fn new() -> (r: Self)
        ensures
            r.inv(),
            forall|i: int| 0 <= i < MAX_FILE_NUM ==> #[trigger] r.names()[i] == None::<Seq<char>>,
            forall|i: int| 0 <= i < MAX_FILE_NUM ==> #[trigger] r.file_free(i),
            forall|i: int| 0 <= i < MAX_TYPE_NUM ==> #[trigger] r.type_free(i),
            r.can_open(),
            r.can_new_type(),
            r.first_free_file() == 0,
            r.first_free_type() == 0,
    {
        proof {
            lemma_small_bitmap(MAX_FILE_NUM as nat / 32);
            lemma_small_bitmap(MAX_TYPE_NUM as nat / 32);
        }
        let mut fd: Vec<Option<String>> = Vec::new();
        let mut i: usize = 0;
        while i < MAX_FILE_NUM
            invariant
                i <= MAX_FILE_NUM,
                fd@.len() == i,
                forall|j: int| 0 <= j < i ==> fd@[j] is None,
            decreases MAX_FILE_NUM - i,
        {
            fd.push(None);
            i = i + 1;
        }
        let r = Self { fd: fd, fm: Bitmap::new(MAX_FILE_NUM, 1), tm: Bitmap::new(MAX_TYPE_NUM, 1) };
        assert forall|i: int| 0 <= i < MAX_FILE_NUM implies #[trigger] r.names()[i] == None::<
            Seq<char>,
        > by {
            assert(r.fd@[i] is None);
        }
        assert(r.fm.is_one(0) && r.tm.is_one(0));
        r
    }

    /// The name file number `file_id` stands for.
    pub fn file_name(&self, file_id: i32) -> (r: Option<String>)
        requires
            self.inv(),
            0 <= file_id < MAX_FILE_NUM,
        ensures
            name_view(r) == self.names()[file_id as int],
    {
        match &self.fd[file_id as usize] {
            Some(s) => Some(s.clone()),
            None => None,
        }
    }

    /// Gives file number `file_id` back (the name it stood for is kept).
    pub fn close_file(&mut self, file_id: i32)
        requires
            old(self).inv(),
            0 <= file_id < MAX_FILE_NUM,
        ensures
            final(self).inv(),
            final(self).names() == old(self).names(),
            forall|i: int|
                0 <= i < MAX_FILE_NUM ==> #[trigger] final(self).file_free(i) == (i == file_id
                    || old(self).file_free(i)),
            forall|i: int|
                0 <= i < MAX_TYPE_NUM ==> #[trigger] final(self).type_free(i) == old(
                    self,
                ).type_free(i),
    {
        self.fm.set_bit(file_id, 1);
    }

    /// Whether `open_file` can give a number.
    pub fn open_ready(&self) -> (r: bool)
        requires
            self.inv(),
        ensures
            r == self.can_open(),
    {
        self.fm.can_find_left_one()
    }

    /// Whether `new_type` can give a number.
    pub fn type_ready(&self) -> (r: bool)
        requires
            self.inv(),
        ensures
            r == self.can_new_type(),
    {
        self.tm.can_find_left_one()
    }

    /// Takes the lowest free file number for the file `name`.
    pub fn open_file(&mut self, name: String) -> (r: i32)
        requires
            old(self).inv(),
            old(self).can_open(),
        ensures
            final(self).inv(),
            r == old(self).first_free_file(),
            0 <= r < MAX_FILE_NUM,
            old(self).file_free(r as int),
            forall|i: int| 0 <= i < r ==> !old(self).file_free(i),
            final(self).names() == old(self).names().update(r as int, Some(name@)),
            forall|i: int|
                0 <= i < MAX_FILE_NUM ==> #[trigger] final(self).file_free(i) == (i != r
                    && old(self).file_free(i)),
            forall|i: int|
                0 <= i < MAX_TYPE_NUM ==> #[trigger] final(self).type_free(i) == old(
                    self,
                ).type_free(i),
    {
        let file_id = self.fm.find_left_one();
        self.fm.set_bit(file_id, 0);
        let ghost before = self.names();
        self.fd.set(file_id as usize, Some(name));
        assert(self.names() =~= before.update(file_id as int, Some(name@)));
        file_id
    }

    /// Takes the lowest free type number.
    pub fn new_type(&mut self) -> (r: i32)
        requires
            old(self).inv(),
            old(self).can_new_type(),
        ensures
            final(self).inv(),
            r == old(self).first_free_type(),
            0 <= r < MAX_TYPE_NUM,
            old(self).type_free(r as int),
            forall|i: int| 0 <= i < r ==> !old(self).type_free(i),
            final(self).names() == old(self).names(),
            forall|i: int|
                0 <= i < MAX_FILE_NUM ==> #[trigger] final(self).file_free(i) == old(
                    self,
                ).file_free(i),
            forall|i: int|
                0 <= i < MAX_TYPE_NUM ==> #[trigger] final(self).type_free(i) == (i != r
                    && old(self).type_free(i)),
    {
        let t = self.tm.find_left_one();
        self.tm.set_bit(t, 0);
        t
    }

    /// Gives type number `type_id` back.
    pub fn close_type(&mut self, type_id: i32)
        requires
            old(self).inv(),
            0 <= type_id < MAX_TYPE_NUM,
        ensures
            final(self).inv(),
            final(self).names() == old(self).names(),
            forall|i: int|
                0 <= i < MAX_FILE_NUM ==> #[trigger] final(self).file_free(i) == old(
                    self,
                ).file_free(i),
            forall|i: int|
                0 <= i < MAX_TYPE_NUM ==> #[trigger] final(self).type_free(i) == (i == type_id
                    || old(self).type_free(i)),
    {
        self.tm.set_bit(type_id, 1);
    }
}

impl FileManager {
    /// A free file number below 31 lets `open_file` give a number: the lowest free one, which
    /// is at most it.
    pub proof fn lemma_open_ready(self, x: int)
        requires
            self.inv(),
            0 <= x < 31,
            self.file_free(x),
        ensures
            self.can_open(),
            self.first_free_file() <= x,
    {
        self.fm.lemma_low_one(x);
    }

    /// A free type number below 31 lets `new_type` give a number: the lowest free one, which
    /// is at most it.
    pub proof fn lemma_type_ready(self, x: int)
        requires
            self.inv(),
            0 <= x < 31,
            self.type_free(x),
        ensures
            self.can_new_type(),
            self.first_free_type() <= x,
    {
        self.tm.lemma_low_one(x);
    }
}

} // verus!
