//! The page cache: `CAP` buffers, each holding at most one page `(file, page)`, found by a
//! hash of the pair and replaced least recently used first. The bytes of the buffers and the
//! reads and writes of pages are the caller's part: each operation says which buffer to read
//! into or which buffer to write back, and to which page.
use vstd::prelude::*;
use crate::rm::filesystem::bufmanager::find_replace::FindReplace;
use crate::rm::filesystem::fileio::file_manager::FileManager;
use crate::rm::filesystem::pagedef::{CAP, MOD};
use crate::rm::filesystem::utils::hashmap::{Hashmap, find_walk, hash_fits, spec_hash};
use crate::rm::filesystem::utils::linklist::{Links, reaches_head, spec_del, spec_insert, spec_insert_first};

verus! {

/// What `get_page` asks of the caller.
#[derive(Clone, Copy, Debug)]
pub enum PageFetch {
    /// The page is in buffer `index` already.
    Hit { index: i32 },
    /// Buffer `index` is given to the page: when `write_back` names a page, the buffer's
    /// old content is first written there; when `fresh`, the buffer is new; then the page is
    /// read into it.
    Miss { index: i32, write_back: Option<(i32, i32)>, fresh: bool },
}

/// The state that `write_back_file` goes through: the hash lists, the pages held, the dirty
/// flags, the order of the buffers, the buffers to write so far, and whether a page could not
/// be looked up.
pub struct WriteBackState {
    pub links: Links,
    pub keys: Seq<(int, int)>,
    pub dirty: Seq<bool>,
    pub order: Links,
    pub out: Seq<(i32, i32)>,
    pub failed: bool,
}

/// The hash list of `(file, page)` can be walked in the hash lists `links`.
pub open spec fn page_findable(links: Links, file: int, page: int) -> bool {
    &&& hash_fits(file, page, MOD as int)
    &&& 0 <= spec_hash(file, page, MOD as int) + CAP < links.len()
    &&& reaches_head(links, CAP as int, links[spec_hash(file, page, MOD as int) + CAP].0, links.len())
}

/// One page of `write_back_file`: when the page cannot be looked up the walk fails; when a
/// buffer holds it, the buffer is given up (as `write_back` does) and, if it was dirty, listed.
pub open spec fn write_back_step(s: WriteBackState, file: int, page: i32) -> WriteBackState {
    if !page_findable(s.links, file, page as int) {
        WriteBackState { failed: true, ..s }
    } else {
        let idx = find_walk(
            s.links,
            CAP as int,
            s.keys,
            s.links[spec_hash(file, page as int, MOD as int) + CAP].0,
            file,
            page as int,
            s.links.len(),
        );
        if idx == -1 {
            s
        } else {
            WriteBackState {
                links: spec_del(s.links, idx),
                keys: s.keys.update(idx, (-1int, -1int)),
                dirty: s.dirty.update(idx, false),
                order: spec_insert_first(s.order, CAP as int, idx),
                out: if s.dirty[idx] {
                    s.out.push((idx as i32, page))
                } else {
                    s.out
                },
                failed: false,
            }
        }
    }
}

/// The pages handled in order, stopping at the first that cannot be looked up.
pub open spec fn write_back_run(s: WriteBackState, file: int, pages: Seq<i32>) -> WriteBackState
    decreases pages.len(),
{
    if s.failed || pages.len() == 0 {
        s
    } else {
        write_back_run(write_back_step(s, file, pages[0]), file, pages.drop_first())
    }
}

pub struct BufPageManager {
    last: i32,
    pub file_manager: FileManager,
    hash: Hashmap,
    replace: FindReplace,
    dirty: Vec<bool>,
    loaded: Vec<bool>,
}

impl BufPageManager {
    /// The page `(file, page)` each buffer holds; `(-1, -1)` for none.
    pub closed spec fn keys(&self) -> Seq<(int, int)> {
        self.hash.keys()
    }

    /// The lists of buffers by hash value.
    pub closed spec fn hash_links(&self) -> Links {
        self.hash.links()
    }

    /// The buffers, least recently used first, as links with the head `CAP`.
    pub closed spec fn order(&self) -> Links {
        self.replace.links()
    }

    /// Whether each buffer was written to since it was read.
    pub closed spec fn dirty(&self) -> Seq<bool> {
        self.dirty@
    }

    /// Whether each buffer has been given memory.
    pub closed spec fn loaded(&self) -> Seq<bool> {
        self.loaded@
    }

    /// The buffer used last.
    pub closed spec fn last(&self) -> int {
        self.last as int
    }

    /// The buffer that holds `(file, page)`, or -1, as the hash lists are walked.
    pub closed spec fn lookup(&self, file: int, page: int) -> int {
        find_walk(
            self.hash.links(),
            self.hash.spec_cap(),
            self.hash.keys(),
            self.hash.links()[spec_hash(file, page, self.hash.spec_modd())
                + self.hash.spec_cap()].0,
            file,
            page,
            self.hash.links().len(),
        )
    }

    /// The page `(file, page)` can be looked up.
    pub closed spec fn findable(&self, file: int, page: int) -> bool {
        self.hash.findable(file, page)
    }

    /// The state `write_back_file` starts from, with nothing listed yet.
    pub closed spec fn write_back_start(&self, out: Seq<(i32, i32)>) -> WriteBackState {
        WriteBackState {
            links: self.hash_links(),
            keys: self.keys(),
            dirty: self.dirty(),
            order: self.order(),
            out: out,
            failed: false,
        }
    }

    pub closed spec fn inv(&self) -> bool {
        &&& self.hash.inv()
        &&& self.replace.inv()
        &&& self.hash.spec_cap() == CAP
        &&& self.hash.spec_modd() == MOD
        &&& self.replace.spec_cap() == CAP
        &&& self.dirty@.len() == CAP
        &&& self.loaded@.len() == CAP
        &&& self.file_manager.inv()
        &&& -1 <= self.last < CAP
    }

    pub proof fn lemma_inv(&self)
        requires
            self.inv(),
        ensures
            self.keys().len() == CAP,
            self.dirty().len() == CAP,
            self.loaded().len() == CAP,
            self.order().len() == CAP + 1,
            self.hash_links().len() == CAP + MOD,
            crate::rm::filesystem::utils::linklist::links_in_range(self.order()),
    {
        self.hash.lemma_inv();
        self.replace.lemma_inv();
    }

    /// All buffers empty, clean and without memory, in the order `0 .. CAP`.
    pub fn new() -> (r: Self)
        ensures
            r.inv(),
            r.last() == -1,
            r.keys() == Seq::new(CAP as nat, |i: int| (-1int, -1int)),
            r.dirty() == Seq::new(CAP as nat, |i: int| false),
            r.loaded() == Seq::new(CAP as nat, |i: int| false),
    {
        let c = CAP as i32;
        let m = MOD as i32;
        let mut dirty: Vec<bool> = Vec::new();
        let mut loaded: Vec<bool> = Vec::new();
        let mut i: usize = 0;
        while i < CAP
            invariant
                i <= CAP,
                dirty@.len() == i,
                loaded@.len() == i,
                forall|j: int| 0 <= j < i ==> !dirty@[j] && !loaded@[j],
            decreases CAP - i,
        {
            dirty.push(false);
            loaded.push(false);
            i = i + 1;
        }
        let r = Self {
            last: -1,
            file_manager: FileManager::new(),
            hash: Hashmap::new(c, m),
            replace: FindReplace::new(c),
            dirty: dirty,
            loaded: loaded,
        };
        assert(r.dirty() =~= Seq::new(CAP as nat, |i: int| false));
        assert(r.loaded() =~= Seq::new(CAP as nat, |i: int| false));
        r
    }

    /// Buffer `index` becomes the most recently used, unless it was the last one used.
    pub fn access(&mut self, index: i32)
        requires
            old(self).inv(),
            0 <= index < CAP,
        ensures
            final(self).inv(),
            final(self).keys() == old(self).keys(),
            final(self).hash_links() == old(self).hash_links(),
            final(self).dirty() == old(self).dirty(),
            final(self).loaded() == old(self).loaded(),
            index == old(self).last() ==> final(self).order() == old(self).order()
                && final(self).last() == old(self).last(),
            index != old(self).last() ==> final(self).order() == spec_insert(
                old(self).order(),
                CAP as int,
                index as int,
            ) && final(self).last() == index,
    {
        if index == self.last {
            return;
        }
        self.replace.access(index);
        self.last = index;
    }

    /// Buffer `index` was written to.
    pub fn mark_dirty(&mut self, index: i32)
        requires
            old(self).inv(),
            0 <= index < CAP,
        ensures
            final(self).inv(),
            final(self).keys() == old(self).keys(),
            final(self).hash_links() == old(self).hash_links(),
            final(self).dirty() == old(self).dirty().update(index as int, true),
            final(self).loaded() == old(self).loaded(),
            index == old(self).last() ==> final(self).order() == old(self).order()
                && final(self).last() == old(self).last(),
            index != old(self).last() ==> final(self).order() == spec_insert(
                old(self).order(),
                CAP as int,
                index as int,
            ) && final(self).last() == index,
    {
        self.dirty.set(index as usize, true);
        self.access(index);
    }

    /// Buffer `index` is dropped without being written: it is clean, holds no page, and in
    /// the order it is linked after the first buffer.
    pub fn release(&mut self, index: i32)
        requires
            old(self).inv(),
            0 <= index < CAP,
        ensures
            final(self).inv(),
            final(self).keys() == old(self).keys().update(index as int, (-1int, -1int)),
            final(self).hash_links() == spec_del(old(self).hash_links(), index as int),
            final(self).dirty() == old(self).dirty().update(index as int, false),
            final(self).loaded() == old(self).loaded(),
            final(self).order() == spec_insert_first(old(self).order(), CAP as int, index as int),
            final(self).last() == old(self).last(),
    {
        self.dirty.set(index as usize, false);
        self.replace.free(index);
        self.hash.remove(index);
    }

    /// The page buffer `index` holds.
    pub fn get_key(&self, index: i32) -> (r: (i32, i32))
        requires
            self.inv(),
            0 <= index < CAP,
        ensures
            (r.0 as int, r.1 as int) == self.keys()[index as int],
    {
        self.hash.get_keys(index)
    }

    /// Buffer `index` is given up: when it is dirty, the result is the page its content is
    /// to be written to; it is then clean, holds no page, and in the order it is linked after
    /// the first buffer.
    pub fn write_back(&mut self, index: i32) -> (r: Option<(i32, i32)>)
        requires
            old(self).inv(),
            0 <= index < CAP,
        ensures
            final(self).inv(),
            match r {
                Some(k) => old(self).dirty()[index as int] && (k.0 as int, k.1 as int) == old(
                    self,
                ).keys()[index as int],
                None => !old(self).dirty()[index as int],
            },
            final(self).keys() == old(self).keys().update(index as int, (-1int, -1int)),
            final(self).hash_links() == spec_del(old(self).hash_links(), index as int),
            final(self).dirty() == old(self).dirty().update(index as int, false),
            final(self).loaded() == old(self).loaded(),
            final(self).order() == spec_insert_first(old(self).order(), CAP as int, index as int),
            final(self).last() == old(self).last(),
    {
        let mut r = None;
        if self.dirty[index as usize] {
            r = Some(self.hash.get_keys(index));
            self.dirty.set(index as usize, false);
        }
        self.replace.free(index);
        self.hash.remove(index);
        r
    }

    /// As `write_back`, for a buffer known to hold `(fd, pd)` when it is dirty; the result
    /// says whether its content is to be written to that page.
    pub fn write_back_check(&mut self, index: i32, fd: i32, pd: i32) -> (r: bool)
        requires
            old(self).inv(),
            0 <= index < CAP,
            old(self).dirty()[index as int] ==> old(self).keys()[index as int] == (
                fd as int,
                pd as int,
            ),
        ensures
            final(self).inv(),
            r == old(self).dirty()[index as int],
            final(self).keys() == old(self).keys().update(index as int, (-1int, -1int)),
            final(self).hash_links() == spec_del(old(self).hash_links(), index as int),
            final(self).dirty() == old(self).dirty().update(index as int, false),
            final(self).loaded() == old(self).loaded(),
            final(self).order() == spec_insert_first(old(self).order(), CAP as int, index as int),
            final(self).last() == old(self).last(),
    {
        let r = self.write_back(index);
        r.is_some()
    }

    /// `get_page` can serve `(file, page)`: the page can be looked up, and the order of the
    /// buffers is not empty.
    pub closed spec fn page_ready_spec(&self, file: int, page: int) -> bool {
        self.findable(file, page) && self.order()[CAP as int].0 < CAP
    }

    /// Whether `get_page` can serve `(file, page)`.
    pub fn page_ready(&self, file: i32, page: i32) -> (r: bool)
        requires
            self.inv(),
        ensures
            r == self.page_ready_spec(file as int, page as int),
    {
        proof {
            self.lemma_inv();
        }
        self.hash.can_find(file, page) && self.replace.first() < CAP as i32
    }

    /// Gives up the buffers that hold the pages `page_id_list` of file `file_id`. The result
    /// lists, in the order met, each buffer `index` whose content is to be written to page
    /// `page` of the file, as `(index, page)`. It is `None` when some page cannot be looked
    /// up (its hash list does not lead back to its head); the pages before it were handled.
    pub fn write_back_file(&mut self, file_id: i32, page_id_list: &Vec<i32>) -> (r: Option<
        Vec<(i32, i32)>,
    >)
        requires
            old(self).inv(),
        ensures
            final(self).inv(),
            final(self).loaded() == old(self).loaded(),
            final(self).last() == old(self).last(),
            forall|b: int|
                0 <= b < CAP ==> (#[trigger] final(self).keys()[b] == old(self).keys()[b]
                    && final(self).dirty()[b] == old(self).dirty()[b]) || (final(self).keys()[b] == (
                    -1int,
                    -1int,
                )
                    && !final(self).dirty()[b] && exists|k: int|
                    0 <= k < page_id_list@.len() && old(self).keys()[b] == (
                        file_id as int,
                        #[trigger] page_id_list@[k] as int,
                    )),
            r matches Some(v) ==> forall|i: int|
                #![trigger v@[i]]
                0 <= i < v@.len() ==> 0 <= v@[i].0 < CAP && page_id_list@.contains(v@[i].1)
                    && old(self).keys()[v@[i].0 as int] == (file_id as int, v@[i].1 as int)
                    && old(self).dirty()[v@[i].0 as int] && final(self).keys()[v@[i].0 as int]
                    == (-1int, -1int) && !final(self).dirty()[v@[i].0 as int],
            r matches Some(v) ==> forall|b: int|
                0 <= b < CAP && #[trigger] old(self).dirty()[b] && !final(self).dirty()[b]
                    ==> exists|j: int| 0 <= j < v@.len() && #[trigger] v@[j].0 == b,
            ({
                let s = write_back_run(old(self).write_back_start(Seq::empty()), file_id as int, page_id_list@);
                &&& final(self).hash_links() == s.links
                &&& final(self).keys() == s.keys
                &&& final(self).dirty() == s.dirty
                &&& final(self).order() == s.order
                &&& (r is None <==> s.failed)
                &&& (r matches Some(v) ==> v@ == s.out)
            }),
    {
        let mut out: Vec<(i32, i32)> = Vec::new();
        let mut i: usize = 0;
        let ghost start = *self;
        assert(page_id_list@.skip(0) =~= page_id_list@);
        assert(out@ =~= Seq::<(i32, i32)>::empty());
        while i < page_id_list.len()
            invariant
                self.inv(),
                i <= page_id_list@.len(),
                start == *old(self),
                self.loaded() == start.loaded(),
                self.last() == start.last(),
                forall|j: int|
                    #![trigger out@[j]]
                    0 <= j < out@.len() ==> 0 <= out@[j].0 < CAP && page_id_list@.contains(
                        out@[j].1,
                    ) && start.keys()[out@[j].0 as int] == (file_id as int, out@[j].1 as int)
                        && start.dirty()[out@[j].0 as int] && self.keys()[out@[j].0 as int] == (
                        -1int,
                        -1int,
                    ) && !self.dirty()[out@[j].0 as int],
                forall|b: int|
                    0 <= b < CAP ==> (#[trigger] self.keys()[b] == start.keys()[b] && self.dirty()[b]
                        == start.dirty()[b]) || (self.keys()[b] == (-1int, -1int)
                        && !self.dirty()[b] && exists|k: int|
                        0 <= k < page_id_list@.len() && start.keys()[b] == (
                            file_id as int,
                            #[trigger] page_id_list@[k] as int,
                        )),
                forall|b: int|
                    0 <= b < CAP && #[trigger] start.dirty()[b] && !self.dirty()[b] ==> exists|j: int|
                        0 <= j < out@.len() && #[trigger] out@[j].0 == b,
                write_back_run(start.write_back_start(Seq::empty()), file_id as int, page_id_list@)
                    == write_back_run(self.write_back_start(out@), file_id as int, page_id_list@.skip(i as int)),
            decreases page_id_list@.len() - i,
        {
            proof {
                self.lemma_inv();
                self.hash.lemma_inv();
                assert(page_id_list@.skip(i as int)[0] == page_id_list@[i as int]);
                assert(page_id_list@.skip(i as int).drop_first() =~= page_id_list@.skip(i as int + 1));
            }
            let ghost cur = self.write_back_start(out@);
            let page_id = page_id_list[i];
            if !self.hash.can_find(file_id, page_id) {
                proof {
                    assert(!page_findable(cur.links, file_id as int, page_id as int));
                    let failed = WriteBackState { failed: true, ..cur };
                    assert(write_back_step(cur, file_id as int, page_id) == failed);
                    assert(write_back_run(failed, file_id as int, page_id_list@.skip(i as int + 1)) == failed);
                    assert(write_back_run(cur, file_id as int, page_id_list@.skip(i as int))
                        == WriteBackState { failed: true, ..cur });
                }
                return None;
            }
            assert(page_findable(cur.links, file_id as int, page_id as int));
            let index = self.hash.find_index(file_id, page_id);
            if index != -1 {
                proof {
                    self.hash.lemma_inv();
                    lemma_find_walk_found(
                        self.hash.links(),
                        self.hash.spec_cap(),
                        self.hash.keys(),
                        self.hash.links()[spec_hash(
                            file_id as int,
                            page_id as int,
                            self.hash.spec_modd(),
                        ) + self.hash.spec_cap()].0,
                        file_id as int,
                        page_id as int,
                        self.hash.links().len(),
                    );
                }
                let ghost before = *self;
                let ghost old_out = out@;
                proof {
                    before.lemma_inv();
                }
                let w = self.write_back_check(index, file_id, page_id);
                if w {
                    out.push((index, page_id));
                }
                proof {
                    let st = write_back_step(cur, file_id as int, page_id);
                    assert(out@ =~= st.out);
                    assert(self.write_back_start(out@) == st);
                    self.lemma_inv();
                    assert(page_id_list@[i as int] == page_id);
                    assert forall|b: int|
                        0 <= b < CAP implies (#[trigger] self.keys()[b] == start.keys()[b]
                            && self.dirty()[b] == start.dirty()[b]) || (self.keys()[b] == (
                            -1int,
                            -1int,
                        ) && !self.dirty()[b] && exists|k: int|
                            0 <= k < page_id_list@.len() && start.keys()[b] == (
                                file_id as int,
                                #[trigger] page_id_list@[k] as int,
                            )) by {
                        if b == index {
                            if before.keys()[b] == start.keys()[b] && before.dirty()[b]
                                == start.dirty()[b] {
                                assert(start.keys()[b] == (
                                    file_id as int,
                                    page_id_list@[i as int] as int,
                                ));
                            }
                        } else {
                            assert(self.keys()[b] == before.keys()[b]);
                        }
                    }
                    assert forall|b: int|
                        0 <= b < CAP && #[trigger] start.dirty()[b] && !self.dirty()[b] implies exists|j: int|
                        0 <= j < out@.len() && #[trigger] out@[j].0 == b by {
                        if b == index && w {
                            assert(out@[out@.len() - 1].0 == b);
                        } else if b == index {
                            assert(before.keys()[b] == before.keys()[b]);
                            let j = choose|j: int| 0 <= j < old_out.len() && #[trigger] old_out[j].0 == b;
                            assert(out@[j] == old_out[j]);
                        } else {
                            assert(self.dirty()[b] == before.dirty()[b]);
                            assert(before.keys()[b] == before.keys()[b]);
                            let j = choose|j: int| 0 <= j < old_out.len() && #[trigger] old_out[j].0 == b;
                            assert(out@[j] == old_out[j]);
                        }
                    }
                    assert forall|j: int|
                        #![trigger out@[j]]
                        0 <= j < out@.len() implies 0 <= out@[j].0 < CAP && page_id_list@.contains(
                        out@[j].1,
                    ) && start.keys()[out@[j].0 as int] == (file_id as int, out@[j].1 as int)
                        && start.dirty()[out@[j].0 as int] && self.keys()[out@[j].0 as int] == (
                        -1int,
                        -1int,
                    ) && !self.dirty()[out@[j].0 as int] by {
                        if j < out@.len() - 1 || !w {
                        } else {
                            assert(before.keys()[index as int] == start.keys()[index as int]);
                        }
                    }
                }
            }
            i = i + 1;
        }
        assert(page_id_list@.skip(i as int) =~= Seq::<i32>::empty());
        Some(out)
    }

    /// Finds the buffer for page `(file_id, page_id)`, giving it the least recently used
    /// buffer when no buffer holds it.
    pub fn get_page(&mut self, file_id: i32, page_id: i32) -> (r: PageFetch)
        requires
            old(self).inv(),
            old(self).page_ready_spec(file_id as int, page_id as int),
        ensures
            final(self).inv(),
            match r {
                PageFetch::Hit { index } => {
                    &&& index == old(self).lookup(file_id as int, page_id as int)
                    &&& 0 <= index < CAP
                    &&& final(self).keys() == old(self).keys()
                    &&& final(self).hash_links() == old(self).hash_links()
                    &&& final(self).dirty() == old(self).dirty()
                    &&& final(self).loaded() == old(self).loaded()
                    &&& index == old(self).last() ==> final(self).order() == old(self).order()
                    &&& index != old(self).last() ==> final(self).order() == spec_insert(
                        old(self).order(),
                        CAP as int,
                        index as int,
                    ) && final(self).last() == index
                },
                PageFetch::Miss { index, write_back, fresh } => {
                    &&& old(self).lookup(file_id as int, page_id as int) == -1
                    &&& index == old(self).order()[CAP as int].0
                    &&& 0 <= index < CAP
                    &&& fresh == !old(self).loaded()[index as int]
                    &&& (match write_back {
                        Some(k) => old(self).loaded()[index as int] && old(self).dirty()[index as int]
                            && (k.0 as int, k.1 as int) == old(self).keys()[index as int],
                        None => !(old(self).loaded()[index as int] && old(self).dirty()[index as int]),
                    })
                    &&& final(self).keys() == old(self).keys().update(
                        index as int,
                        (file_id as int, page_id as int),
                    )
                    &&& final(self).dirty() == old(self).dirty().update(
                        index as int,
                        old(self).dirty()[index as int] && !old(self).loaded()[index as int],
                    )
                    &&& final(self).loaded() == old(self).loaded().update(index as int, true)
                    &&& final(self).order() == spec_insert(
                        spec_del(old(self).order(), index as int),
                        CAP as int,
                        index as int,
                    )
                    &&& final(self).hash_links() == spec_insert_first(
                        old(self).hash_links(),
                        spec_hash(file_id as int, page_id as int, MOD as int) + CAP,
                        index as int,
                    )
                    &&& final(self).last() == old(self).last()
                },
            },
    {
        let found = self.hash.find_index(file_id, page_id);
        if found != -1 {
            proof {
                self.hash.lemma_inv();
                lemma_find_walk_found(
                    self.hash.links(),
                    self.hash.spec_cap(),
                    self.hash.keys(),
                    self.hash.links()[spec_hash(file_id as int, page_id as int, self.hash.spec_modd())
                        + self.hash.spec_cap()].0,
                    file_id as int,
                    page_id as int,
                    self.hash.links().len(),
                );
            }
            self.access(found);
            return PageFetch::Hit { index: found };
        }
        let ghost ord = self.replace.links();
        proof {
            self.lemma_inv();
            self.replace.lemma_inv();
            crate::rm::filesystem::utils::linklist::lemma_in_range_at(ord, CAP as int);
        }
        let index = self.replace.find();
        let mut write_back = None;
        let fresh = !self.loaded[index as usize];
        if !fresh {
            if self.dirty[index as usize] {
                write_back = Some(self.hash.get_keys(index));
                self.dirty.set(index as usize, false);
            }
        } else {
            self.loaded.set(index as usize, true);
        }
        self.hash.replace(index, file_id, page_id);
        proof {
            assert(self.dirty() =~= old(self).dirty().update(
                index as int,
                old(self).dirty()[index as int] && !old(self).loaded()[index as int],
            ));
            assert(self.loaded() =~= old(self).loaded().update(index as int, true));
        }
        PageFetch::Miss { index: index, write_back: write_back, fresh: fresh }
    }

    /// Gives up every buffer, in the order `0 .. CAP`; the result lists each buffer whose
    /// content is to be written, with the page it goes to, as `(index, (file, page))`.
    pub fn close(&mut self) -> (r: Vec<(i32, (i32, i32))>)
        requires
            old(self).inv(),
        ensures
            final(self).inv(),
            forall|b: int| 0 <= b < CAP ==> #[trigger] final(self).keys()[b] == (-1int, -1int),
            forall|b: int| 0 <= b < CAP ==> !#[trigger] final(self).dirty()[b],
            forall|j: int|
                #![trigger r@[j]]
                0 <= j < r@.len() ==> 0 <= r@[j].0 < CAP && old(self).dirty()[r@[j].0 as int] && (
                    r@[j].1.0 as int,
                    r@[j].1.1 as int,
                ) == old(self).keys()[r@[j].0 as int],
            forall|b: int|
                0 <= b < CAP && #[trigger] old(self).dirty()[b] ==> exists|j: int|
                    0 <= j < r@.len() && #[trigger] r@[j].0 == b,
    {
        let mut out: Vec<(i32, (i32, i32))> = Vec::new();
        let c = CAP as i32;
        let mut i: i32 = 0;
        let ghost start = *self;
        while i < c
            invariant
                self.inv(),
                c == CAP,
                0 <= i <= c,
                forall|b: int| 0 <= b < i ==> #[trigger] self.keys()[b] == (-1int, -1int),
                forall|b: int| 0 <= b < i ==> !#[trigger] self.dirty()[b],
                forall|b: int|
                    i <= b < CAP ==> #[trigger] self.keys()[b] == start.keys()[b]
                        && self.dirty()[b] == start.dirty()[b],
                forall|j: int|
                    #![trigger out@[j]]
                    0 <= j < out@.len() ==> 0 <= out@[j].0 < i && start.dirty()[out@[j].0 as int]
                        && (out@[j].1.0 as int, out@[j].1.1 as int) == start.keys()[out@[j].0 as int],
                forall|b: int|
                    0 <= b < i && #[trigger] start.dirty()[b] ==> exists|j: int|
                        0 <= j < out@.len() && #[trigger] out@[j].0 == b,
            decreases c - i,
        {
            let ghost before = *self;
            let ghost n = out@.len();
            let ghost old_out = out@;
            proof {
                self.lemma_inv();
            }
            let wb = self.write_back(i);
            if let Some(k) = wb {
                out.push((i, k));
            }
            proof {
                self.lemma_inv();
                assert(before.keys()[i as int] == start.keys()[i as int]);
                assert(before.dirty()[i as int] == start.dirty()[i as int]);
                assert forall|b: int|
                    0 <= b < i + 1 && #[trigger] start.dirty()[b] implies exists|j: int|
                    0 <= j < out@.len() && #[trigger] out@[j].0 == b by {
                    if b < i {
                        let j = choose|j: int| 0 <= j < n && #[trigger] old_out[j].0 == b;
                        assert(out@[j] == old_out[j]);
                    } else {
                        assert(wb is Some);
                        assert(out@[n as int].0 == b);
                    }
                }
            }
            i = i + 1;
        }
        out
    }
}

/// A walk that ends on an element found it: its keys are the ones looked for.
proof fn lemma_find_walk_found(
    l: Links,
    cap: int,
    keys: Seq<(int, int)>,
    p: int,
    k1: int,
    k2: int,
    fuel: nat,
)
    ensures
        find_walk(l, cap, keys, p, k1, k2, fuel) != -1 ==> 0 <= find_walk(l, cap, keys, p, k1, k2, fuel) < cap
            && find_walk(l, cap, keys, p, k1, k2, fuel) < l.len()
            && keys[find_walk(l, cap, keys, p, k1, k2, fuel)] == (k1, k2),
    decreases fuel,
{
    if !(p >= cap || fuel == 0 || p < 0 || p >= l.len()) && keys[p] != (k1, k2) {
        lemma_find_walk_found(l, cap, keys, l[p].0, k1, k2, (fuel - 1) as nat);
    }
}

} // verus!
