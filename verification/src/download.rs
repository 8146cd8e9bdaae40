//! Downloads in progress: the chunks of a requested file as they come.

use std::collections::HashMap;
use vstd::prelude::*;
use vstd::string::*;
use crate::chunker::concat_all;

verus! {

broadcast use vstd::std_specs::hash::group_hash_axioms;

/// What a download is, as a value: how many chunks the file has (0 while
/// unknown), how many distinct chunks came, and the chunks by index.
pub struct DownloadView {
    pub total_chunks: nat,
    pub received_chunks: nat,
    pub chunks: Map<usize, Seq<u8>>,
}

/// A download in progress: the chunks of a requested file received so far.
pub struct DownloadState {
    pub total_chunks: usize,
    pub received_chunks: usize,
    pub chunks_data: HashMap<usize, Vec<u8>>,
}

/// A download that has just been asked for.
pub open spec fn fresh_download() -> DownloadView {
    DownloadView { total_chunks: 0, received_chunks: 0, chunks: Map::empty() }
}

/// Every chunk from 1 to `total` has come.
pub open spec fn all_chunks_present(chunks: Map<usize, Seq<u8>>, total: nat) -> bool {
    forall|x: usize| 1 <= x <= total ==> #[trigger] chunks.contains_key(x)
}

/// Chunks 1 to `total` put together in order.
pub open spec fn assemble(chunks: Map<usize, Seq<u8>>, total: nat) -> Seq<u8>
    decreases total,
{
    if total == 0 {
        Seq::empty()
    } else {
        assemble(chunks, (total - 1) as nat) + chunks[total as usize]
    }
}

/// The download after chunk `index` of `count`, holding `data`, has come: a
/// chunk already held is kept as it was, the number of chunks is taken from
/// the chunk where it is not known yet, and only a new chunk is counted.
pub open spec fn after_chunk(d: DownloadView, index: usize, count: usize, data: Seq<u8>) -> DownloadView {
    let is_new = !d.chunks.contains_key(index);
    DownloadView {
        total_chunks: if d.total_chunks == 0 {
            count as nat
        } else {
            d.total_chunks
        },
        received_chunks: if is_new {
            d.received_chunks + 1
        } else {
            d.received_chunks
        },
        chunks: if is_new {
            d.chunks.insert(index, data)
        } else {
            d.chunks
        },
    }
}

/// The download is done: its number of chunks is known, that many distinct
/// chunks came, and they are chunks 1 to that number.
pub open spec fn download_finished(d: DownloadView) -> bool {
    d.total_chunks > 0 && d.received_chunks == d.total_chunks && all_chunks_present(
        d.chunks,
        d.total_chunks,
    )
}

impl DownloadState {
    pub open spec fn view(&self) -> DownloadView {
        DownloadView {
            total_chunks: self.total_chunks as nat,
            received_chunks: self.received_chunks as nat,
            chunks: self.chunks_data@.map_values(|v: Vec<u8>| v@),
        }
    }

    /// The count of received chunks is the number of distinct chunks held.
    pub open spec fn wf(&self) -> bool {
        &&& self.chunks_data@.dom().finite()
        &&& self.received_chunks == self.chunks_data@.len()
    }

    /// A download that has just been asked for.
    pub fn new() -> (res: Self)
        ensures
            res.wf(),
            res.view() == fresh_download(),
    {
        let res = DownloadState { total_chunks: 0, received_chunks: 0, chunks_data: HashMap::new() };
        assert(res.view().chunks =~= Map::<usize, Seq<u8>>::empty());
        res
    }

    /// Records chunk `index` of `count` holding `data`; tells whether it was
    /// new.
    pub fn add_chunk(&mut self, index: usize, count: usize, data: Vec<u8>) -> (is_new: bool)
        requires
            old(self).wf(),
        ensures
            final(self).wf(),
            is_new == !old(self).view().chunks.contains_key(index),
            final(self).view() == after_chunk(old(self).view(), index, count, data@),
    {
        let ghost before = self.view();
        let is_new = !self.chunks_data.contains_key(&index);
        if is_new {
            self.chunks_data.insert(index, data);
            let held = self.chunks_data.len();
            assert(held == self.received_chunks + 1);
            self.received_chunks = self.received_chunks + 1;
            assert(self.view().chunks =~= before.chunks.insert(index, data@));
        }
        if self.total_chunks == 0 {
            self.total_chunks = count;
        }
        is_new
    }

    /// Whether chunks 1 to `total_chunks` have all come.
    pub fn all_present(&self) -> (res: bool)
        ensures
            res == all_chunks_present(self.view().chunks, self.total_chunks as nat),
    {
        let mut x: usize = 0;
        while x < self.total_chunks
            invariant
                x <= self.total_chunks,
                forall|y: usize| 1 <= y <= x ==> #[trigger] self.view().chunks.contains_key(y),
            decreases self.total_chunks - x,
        {
            if !self.chunks_data.contains_key(&(x + 1)) {
                assert(!self.view().chunks.contains_key((x + 1) as usize));
                return false;
            }
            x = x + 1;
        }
        true
    }

    /// Chunks 1 to `total_chunks` put together in order.
    pub fn assemble(&self) -> (res: Vec<u8>)
        requires
            all_chunks_present(self.view().chunks, self.total_chunks as nat),
        ensures
            res@ == assemble(self.view().chunks, self.total_chunks as nat),
    {
        let mut res: Vec<u8> = Vec::new();
        let mut x: usize = 0;
        while x < self.total_chunks
            invariant
                x <= self.total_chunks,
                all_chunks_present(self.view().chunks, self.total_chunks as nat),
                res@ == assemble(self.view().chunks, x as nat),
            decreases self.total_chunks - x,
        {
            let next: usize = x + 1;
            assert(self.view().chunks.contains_key(next));
            match self.chunks_data.get(&next) {
                Some(piece) => {
                    let ghost before = res@;
                    let mut j: usize = 0;
                    while j < piece.len()
                        invariant
                            j <= piece@.len(),
                            res@ == before + piece@.take(j as int),
                        decreases piece.len() - j,
                    {
                        res.push(piece[j]);
                        assert(piece@.take(j + 1) =~= piece@.take(j as int).push(piece@[j as int]));
                        j = j + 1;
                    }
                    assert(piece@.take(j as int) =~= piece@);
                    assert(self.view().chunks[next] == piece@);
                },
                None => {
                    assert(false);
                },
            }
            x = next;
        }
        res
    }
}


/// How far a download is after a chunk came.
pub enum Completion {
    /// Fewer distinct chunks than the file has came so far, or the number of
    /// chunks is not known.
    Pending,
    /// As many distinct chunks as the file has came, but not chunks 1 to that
    /// number.
    Missing,
    /// All chunks came; the file, put together.
    Complete(Vec<u8>),
}

/// What became of a chunk that came for a file.
pub enum ChunkOutcome {
    /// The file is not being downloaded.
    NotRequested,
    /// The chunk went into the file's download.
    Recorded { new_chunk: bool, received: usize, total: usize, completion: Completion },
}

/// What taking in chunk `index` of `count`, holding `data`, for the file
/// `name` does to the downloads `before`, giving `after` and the outcome `res`:
/// nothing where the file is not being downloaded; else the chunk goes into
/// its download, and the download is dropped, the file being put together,
/// exactly where that finishes it.
pub open spec fn chunk_recorded(
    before: Map<Seq<char>, DownloadView>,
    after: Map<Seq<char>, DownloadView>,
    name: Seq<char>,
    index: usize,
    count: usize,
    data: Seq<u8>,
    res: ChunkOutcome,
) -> bool {
    match res {
        ChunkOutcome::NotRequested => !before.contains_key(name) && after == before,
        ChunkOutcome::Recorded { new_chunk, received, total, completion } => {
            let d = after_chunk(before[name], index, count, data);
            &&& before.contains_key(name)
            &&& new_chunk == !before[name].chunks.contains_key(index)
            &&& received == d.received_chunks
            &&& total == d.total_chunks
            &&& match completion {
                Completion::Complete(file) => {
                    &&& download_finished(d)
                    &&& file@ == assemble(d.chunks, d.total_chunks)
                    &&& after == before.remove(name)
                },
                Completion::Missing => {
                    &&& d.total_chunks > 0 && d.received_chunks == d.total_chunks
                    &&& !all_chunks_present(d.chunks, d.total_chunks)
                    &&& after == before.insert(name, d)
                },
                Completion::Pending => {
                    &&& !(d.total_chunks > 0 && d.received_chunks == d.total_chunks)
                    &&& after == before.insert(name, d)
                },
            }
        },
    }
}

/// The count of received chunks of a download is the number of distinct
/// chunks it holds.
pub open spec fn counts_right(d: DownloadView) -> bool {
    d.chunks.dom().finite() && d.received_chunks == d.chunks.len()
}

/// Every download in `m` counts its chunks right.
pub open spec fn all_count_right(m: Map<Seq<char>, DownloadView>) -> bool {
    forall|name: Seq<char>| #[trigger] m.contains_key(name) ==> counts_right(m[name])
}

/// The downloads `after` come from `before` without gaining a file or losing
/// a chunk: each file still downloaded was downloaded before and holds every
/// chunk it held, with the same bytes.
pub open spec fn keeps_chunks(before: Map<Seq<char>, DownloadView>, after: Map<Seq<char>, DownloadView>) -> bool {
    &&& forall|name: Seq<char>| #[trigger] after.contains_key(name) ==> before.contains_key(name)
    &&& forall|name: Seq<char>, k: usize|
        #![trigger after.contains_key(name), before[name].chunks.contains_key(k)]
        after.contains_key(name) && before[name].chunks.contains_key(k) ==> {
            &&& after[name].chunks.contains_key(k)
            &&& after[name].chunks[k] == before[name].chunks[k]
        }
}

/// Taking in a chunk keeps every download counting its chunks right, adds no
/// download and loses no chunk that was held.
pub proof fn chunk_keeps_downloads(
    before: Map<Seq<char>, DownloadView>,
    after: Map<Seq<char>, DownloadView>,
    name: Seq<char>,
    index: usize,
    count: usize,
    data: Seq<u8>,
    res: ChunkOutcome,
)
    requires
        all_count_right(before),
        chunk_recorded(before, after, name, index, count, data, res),
    ensures
        all_count_right(after),
        keeps_chunks(before, after),
{
    match res {
        ChunkOutcome::NotRequested => {},
        ChunkOutcome::Recorded { completion, .. } => {
            let d = after_chunk(before[name], index, count, data);
            assert(counts_right(before[name]));
            assert(counts_right(d)) by {
                if !before[name].chunks.contains_key(index) {
                    assert(d.chunks.dom() =~= before[name].chunks.dom().insert(index));
                }
            }
            match completion {
                Completion::Complete(_) => {},
                _ => {
                    assert forall|n: Seq<char>| #[trigger] after.contains_key(n) implies counts_right(
                        after[n],
                    ) by {
                        if n != name {
                            assert(before.contains_key(n));
                        }
                    }
                },
            }
        },
    }
}

/// The downloads in progress, by file name. Each file stands once.
pub struct Downloads {
    entries: Vec<(String, DownloadState)>,
}

impl Downloads {
    pub closed spec fn names(&self) -> Seq<Seq<char>> {
        self.entries@.map_values(|e: (String, DownloadState)| e.0@)
    }

    /// No file stands twice, and each download counts its chunks right.
    pub closed spec fn wf(&self) -> bool {
        &&& self.names().no_duplicates()
        &&& forall|i: int| 0 <= i < self.entries@.len() ==> (#[trigger] self.entries@[i]).1.wf()
    }

    pub closed spec fn position(&self, name: Seq<char>) -> int {
        choose|i: int| 0 <= i < self.entries@.len() && self.entries@[i].0@ == name
    }

    /// Each download in progress, by the file's name.
    pub closed spec fn view(&self) -> Map<Seq<char>, DownloadView> {
        Map::new(
            |p: Seq<char>| self.names().contains(p),
            |p: Seq<char>| self.entries@[self.position(p)].1.view(),
        )
    }

    proof fn lemma_view_at(&self, i: int)
        requires
            self.names().no_duplicates(),
            0 <= i < self.entries@.len(),
        ensures
            self@.contains_key(self.entries@[i].0@),
            self@[self.entries@[i].0@] == self.entries@[i].1.view(),
            self.position(self.entries@[i].0@) == i,
    {
        let p = self.entries@[i].0@;
        assert(self.names()[i] == p);
        let j = self.position(p);
        assert(self.names()[j] == p);
    }

    proof fn lemma_replace_at(before: Downloads, after: Downloads, i: int, e: (String, DownloadState))
        requires
            before.wf(),
            0 <= i < before.entries@.len(),
            e.0@ == before.entries@[i].0@,
            e.1.wf(),
            after.entries@ == before.entries@.update(i, e),
        ensures
            after.wf(),
            after@ == before@.insert(e.0@, e.1.view()),
    {
        assert(after.names() =~= before.names().update(i, e.0@));
        assert(before.names().update(i, e.0@) =~= before.names());
        after.lemma_view_at(i);
        before.lemma_view_at(i);
        assert forall|p: Seq<char>| #[trigger] after@.contains_key(p) implies after@[p]
            == before@.insert(e.0@, e.1.view())[p] by {
            let j = after.position(p);
            assert(after.names()[j] == p);
            after.lemma_view_at(j);
            if p != e.0@ {
                assert(j != i);
                assert(before.entries@[j] == after.entries@[j]);
                before.lemma_view_at(j);
            }
        }
        assert(after@ =~= before@.insert(e.0@, e.1.view()));
    }

    proof fn lemma_remove_at(before: Downloads, after: Downloads, i: int)
        requires
            before.wf(),
            0 <= i < before.entries@.len(),
            after.entries@ == before.entries@.remove(i),
        ensures
            after.wf(),
            after@ == before@.remove(before.entries@[i].0@),
    {
        let name = before.entries@[i].0@;
        assert(after.names() =~= before.names().remove(i));
        assert forall|a: int| 0 <= a < after.names().len() implies #[trigger] after.names()[a]
            == before.names()[if a < i { a } else { a + 1 }] by {}
        assert(after.wf()) by {
            assert forall|a: int, b: int| 0 <= a < b < after.names().len() implies after.names()[a]
                != after.names()[b] by {
                let a2 = if a < i { a } else { a + 1 };
                let b2 = if b < i { b } else { b + 1 };
                assert(after.names()[a] == before.names()[a2]);
                assert(after.names()[b] == before.names()[b2]);
            }
            assert forall|a: int| 0 <= a < after.entries@.len() implies (#[trigger] after.entries@[a]).1.wf() by {
                let a2 = if a < i { a } else { a + 1 };
                assert(after.entries@[a] == before.entries@[a2]);
            }
        }
        before.lemma_view_at(i);
        assert forall|p: Seq<char>| #[trigger] after@.contains_key(p) implies before@.remove(name).contains_key(p)
            && after@[p] == before@.remove(name)[p] by {
            let j = after.position(p);
            assert(after.names()[j] == p);
            after.lemma_view_at(j);
            let j2 = if j < i { j } else { j + 1 };
            assert(after.entries@[j] == before.entries@[j2]);
            before.lemma_view_at(j2);
            assert(j2 != i);
        }
        assert forall|p: Seq<char>| #[trigger] before@.remove(name).contains_key(p) implies after@.contains_key(p) by {
            let j = before.position(p);
            assert(before.names()[j] == p);
            assert(j != i);
            let j2 = if j < i { j } else { j - 1 };
            assert(after.names()[j2] == p);
        }
        assert(after@ =~= before@.remove(name));
    }

    proof fn lemma_push_fresh(before: Downloads, after: Downloads, e: (String, DownloadState))
        requires
            before.wf(),
            !before@.contains_key(e.0@),
            e.1.wf(),
            after.entries@ == before.entries@.push(e),
        ensures
            after.wf(),
            after@ == before@.insert(e.0@, e.1.view()),
    {
        let name = e.0@;
        assert(after.names() =~= before.names().push(name));
        assert(after.wf()) by {
            assert forall|a: int, b: int|
                0 <= a < b < after.names().len() implies after.names()[a] != after.names()[b] by {
                assert(before.names()[a] == after.names()[a]);
                if b == after.names().len() - 1 {
                    assert(before.names().contains(after.names()[a]));
                } else {
                    assert(before.names()[b] == after.names()[b]);
                }
            }
            assert forall|a: int| 0 <= a < after.entries@.len() implies (#[trigger] after.entries@[a]).1.wf() by {
                if a < before.entries@.len() {
                    assert(after.entries@[a] == before.entries@[a]);
                }
            }
        }
        assert forall|p: Seq<char>| #[trigger] after@.contains_key(p) implies after@[p]
            == before@.insert(name, e.1.view())[p] by {
            let j = after.position(p);
            assert(after.names()[j] == p);
            after.lemma_view_at(j);
            if p != name {
                assert(before.entries@[j] == after.entries@[j]);
                before.lemma_view_at(j);
            }
        }
        assert forall|p: Seq<char>| #[trigger] before@.insert(name, e.1.view()).contains_key(p)
            implies after@.contains_key(p) by {
            if p != name {
                let j = before.position(p);
                assert(before.names()[j] == p);
                assert(after.names()[j] == p);
            } else {
                assert(after.names()[after.names().len() - 1] == p);
            }
        }
        assert(after@ =~= before@.insert(name, e.1.view()));
    }

    /// Each download in progress counts its chunks right.
    pub proof fn lemma_counts_right(&self)
        requires
            self.wf(),
        ensures
            all_count_right(self@),
    {
        assert forall|name: Seq<char>| #[trigger] self@.contains_key(name) implies counts_right(
            self@[name],
        ) by {
            let j = self.position(name);
            assert(self.names()[j] == name);
            self.lemma_view_at(j);
            let st = self.entries@[j].1;
            assert(st.wf());
            assert(st.view().chunks.dom() =~= st.chunks_data@.dom());
        }
    }

    /// No downloads.
    pub fn new() -> (res: Self)
        ensures
            res.wf(),
            res@ == Map::<Seq<char>, DownloadView>::empty(),
    {
        let res = Downloads { entries: Vec::new() };
        assert(res@ =~= Map::<Seq<char>, DownloadView>::empty());
        res
    }

    fn find(&self, name: &String) -> (res: Option<usize>)
        requires
            self.wf(),
        ensures
            match res {
                Some(i) => i < self.entries@.len() && self.entries@[i as int].0@ == name@,
                None => !self@.contains_key(name@),
            },
    {
        let mut i: usize = 0;
        while i < self.entries.len()
            invariant
                i <= self.entries@.len(),
                forall|j: int| 0 <= j < i ==> self.entries@[j].0@ != name@,
            decreases self.entries.len() - i,
        {
            if self.entries[i].0 == *name {
                return Some(i);
            }
            i = i + 1;
        }
        proof {
            if self@.contains_key(name@) {
                let k = choose|k: int| 0 <= k < self.names().len() && self.names()[k] == name@;
                assert(self.entries@[k].0@ == name@);
            }
        }
        None
    }

    /// Whether `name` is being downloaded.
    pub fn is_downloading(&self, name: &str) -> (res: bool)
        requires
            self.wf(),
        ensures
            res == self@.contains_key(name@),
    {
        let key = String::from_str(name);
        match self.find(&key) {
            Some(i) => {
                proof {
                    self.lemma_view_at(i as int);
                }
                true
            },
            None => false,
        }
    }

    /// How many distinct chunks of `name` came, and how many the file has.
    pub fn progress(&self, name: &str) -> (res: Option<(usize, usize)>)
        requires
            self.wf(),
        ensures
            match res {
                Some((received, total)) => self@.contains_key(name@) && self@[name@].received_chunks
                    == received && self@[name@].total_chunks == total,
                None => !self@.contains_key(name@),
            },
    {
        let key = String::from_str(name);
        match self.find(&key) {
            Some(i) => {
                proof {
                    self.lemma_view_at(i as int);
                }
                Some((self.entries[i].1.received_chunks, self.entries[i].1.total_chunks))
            },
            None => None,
        }
    }

    /// Starts a download of `name` afresh, dropping what came for it before.
    pub fn start_download(&mut self, name: &str)
        requires
            old(self).wf(),
        ensures
            final(self).wf(),
            final(self)@ == old(self)@.insert(name@, fresh_download()),
    {
        let key = String::from_str(name);
        let ghost before = *self;
        let fresh = DownloadState::new();
        match self.find(&key) {
            Some(i) => {
                self.entries.set(i, (key, fresh));
                proof {
                    Downloads::lemma_replace_at(before, *self, i as int, (key, fresh));
                }
            },
            None => {
                self.entries.push((key, fresh));
                proof {
                    Downloads::lemma_push_fresh(before, *self, (key, fresh));
                }
            },
        }
    }

    /// Sets the number of chunks of `name` where it is being downloaded.
    pub fn set_total_chunks(&mut self, name: &str, total: usize)
        requires
            old(self).wf(),
        ensures
            final(self).wf(),
            final(self)@ == (if old(self)@.contains_key(name@) {
                old(self)@.insert(
                    name@,
                    DownloadView { total_chunks: total as nat, ..old(self)@[name@] },
                )
            } else {
                old(self)@
            }),
    {
        let key = String::from_str(name);
        let ghost before = *self;
        match self.find(&key) {
            Some(i) => {
                proof {
                    before.lemma_view_at(i as int);
                }
                let (k, mut st) = self.entries.remove(i);
                st.total_chunks = total;
                self.entries.insert(i, (k, st));
                proof {
                    assert(self.entries@ =~= before.entries@.update(i as int, (k, st)));
                    assert(st.view() == DownloadView { total_chunks: total as nat, ..before@[name@] });
                    Downloads::lemma_replace_at(before, *self, i as int, (k, st));
                }
            },
            None => {},
        }
    }

    /// Takes in chunk `index` of `count`, holding `data`, for the file `name`;
    /// where that completes the download, gives the file put together and
    /// drops the download.
    pub fn record_chunk(&mut self, name: &str, index: usize, count: usize, data: Vec<u8>) -> (res:
        ChunkOutcome)
        requires
            old(self).wf(),
        ensures
            final(self).wf(),
            chunk_recorded(old(self)@, final(self)@, name@, index, count, data@, res),
    {
        let key = String::from_str(name);
        let ghost before = *self;
        match self.find(&key) {
            None => ChunkOutcome::NotRequested,
            Some(i) => {
                proof {
                    before.lemma_view_at(i as int);
                }
                let (k, mut st) = self.entries.remove(i);
                assert(st == before.entries@[i as int].1);
                assert(st.wf());
                let new_chunk = st.add_chunk(index, count, data);
                let received = st.received_chunks;
                let total = st.total_chunks;
                if total > 0 && received == total {
                    if st.all_present() {
                        let file = st.assemble();
                        proof {
                            Downloads::lemma_remove_at(before, *self, i as int);
                        }
                        ChunkOutcome::Recorded {
                            new_chunk,
                            received,
                            total,
                            completion: Completion::Complete(file),
                        }
                    } else {
                        self.entries.insert(i, (k, st));
                        proof {
                            assert(self.entries@ =~= before.entries@.update(i as int, (k, st)));
                            Downloads::lemma_replace_at(before, *self, i as int, (k, st));
                        }
                        ChunkOutcome::Recorded { new_chunk, received, total, completion: Completion::Missing }
                    }
                } else {
                    self.entries.insert(i, (k, st));
                    proof {
                        assert(self.entries@ =~= before.entries@.update(i as int, (k, st)));
                        Downloads::lemma_replace_at(before, *self, i as int, (k, st));
                    }
                    ChunkOutcome::Recorded { new_chunk, received, total, completion: Completion::Pending }
                }
            },
        }
    }
}


/// The chunk that the `j`-th delivery brings: part `order[j]` of `parts`, as
/// chunk `order[j] + 1` of `parts.len()`.
pub open spec fn delivery_index(order: Seq<usize>, j: int) -> usize {
    (order[j] + 1) as usize
}

/// A fresh download after the first `k` deliveries of `parts` in the order
/// `order`.
pub open spec fn deliver_first(parts: Seq<Seq<u8>>, order: Seq<usize>, k: nat) -> DownloadView
    decreases k,
{
    if k == 0 {
        fresh_download()
    } else {
        after_chunk(
            deliver_first(parts, order, (k - 1) as nat),
            delivery_index(order, k - 1),
            parts.len() as usize,
            parts[order[k - 1] as int],
        )
    }
}

/// `order` names each index below `n` exactly once.
pub open spec fn is_order_of(order: Seq<usize>, n: nat) -> bool {
    &&& order.len() == n
    &&& order.no_duplicates()
    &&& forall|j: int| 0 <= j < order.len() ==> #[trigger] order[j] < n
}

proof fn lemma_concat_push(s: Seq<Seq<u8>>, x: Seq<u8>)
    ensures
        concat_all(s.push(x)) == concat_all(s) + x,
    decreases s.len(),
{
    if s.len() == 0 {
        assert(s.push(x).drop_first() =~= Seq::<Seq<u8>>::empty());
        assert(concat_all(s.push(x).drop_first()) =~= Seq::<u8>::empty());
        assert(concat_all(s.push(x)) =~= concat_all(s) + x);
    } else {
        lemma_concat_push(s.drop_first(), x);
        assert(s.push(x).drop_first() =~= s.drop_first().push(x));
        assert(concat_all(s.push(x)) =~= concat_all(s) + x);
    }
}

proof fn lemma_deliver_first(parts: Seq<Seq<u8>>, order: Seq<usize>, k: nat)
    requires
        1 <= parts.len() <= usize::MAX,
        is_order_of(order, parts.len()),
        k <= parts.len(),
    ensures
        ({
            let d = deliver_first(parts, order, k);
            &&& k > 0 ==> d.total_chunks == parts.len()
            &&& k == 0 ==> d.total_chunks == 0
            &&& d.received_chunks == k
            &&& forall|x: usize|
                #[trigger] d.chunks.contains_key(x) <==> exists|j: int|
                    0 <= j < k && delivery_index(order, j) == x
            &&& forall|j: int|
                0 <= j < k ==> #[trigger] d.chunks[delivery_index(order, j)] == parts[order[j] as int]
        }),
    decreases k,
{
    if k > 0 {
        let prev = deliver_first(parts, order, (k - 1) as nat);
        lemma_deliver_first(parts, order, (k - 1) as nat);
        let x = delivery_index(order, k - 1);
        assert(!prev.chunks.contains_key(x)) by {
            if prev.chunks.contains_key(x) {
                let j = choose|j: int| 0 <= j < k - 1 && delivery_index(order, j) == x;
                assert(order[j] == order[k - 1]);
            }
        }
        let d = deliver_first(parts, order, k);
        assert forall|y: usize| #[trigger] d.chunks.contains_key(y) <==> exists|j: int|
            0 <= j < k && delivery_index(order, j) == y by {
            if y == x {
                assert(delivery_index(order, k - 1) == y);
            } else if d.chunks.contains_key(y) {
                assert(prev.chunks.contains_key(y));
            } else if exists|j: int| 0 <= j < k && delivery_index(order, j) == y {
                let j = choose|j: int| 0 <= j < k && delivery_index(order, j) == y;
                assert(j != k - 1);
                assert(prev.chunks.contains_key(y));
            }
        }
        assert forall|j: int| 0 <= j < k implies #[trigger] d.chunks[delivery_index(order, j)]
            == parts[order[j] as int] by {
            if j < k - 1 {
                assert(order[j] != order[k - 1]);
                assert(prev.chunks[delivery_index(order, j)] == parts[order[j] as int]);
            }
        }
    }
}

proof fn lemma_assemble_parts(chunks: Map<usize, Seq<u8>>, parts: Seq<Seq<u8>>, m: nat)
    requires
        m <= parts.len() <= usize::MAX,
        forall|x: usize| 1 <= x <= parts.len() ==> #[trigger] chunks[x] == parts[x - 1],
    ensures
        assemble(chunks, m) == concat_all(parts.take(m as int)),
    decreases m,
{
    if m == 0 {
        assert(parts.take(0) =~= Seq::<Seq<u8>>::empty());
    } else {
        lemma_assemble_parts(chunks, parts, (m - 1) as nat);
        assert(parts.take(m as int) =~= parts.take(m - 1).push(parts[m - 1]));
        lemma_concat_push(parts.take(m - 1), parts[m - 1]);
        assert(chunks[m as usize] == parts[m - 1]);
    }
}

/// Asking for a file and then receiving each of its chunks once, in any
/// order, finishes the download exactly at the last chunk, and the file put
/// together is the file that was cut into those chunks.
pub proof fn all_chunks_complete_download(parts: Seq<Seq<u8>>, order: Seq<usize>)
    requires
        1 <= parts.len() <= usize::MAX,
        is_order_of(order, parts.len()),
    ensures
        forall|k: nat| k < parts.len() ==> !download_finished(#[trigger] deliver_first(parts, order, k)),
        download_finished(deliver_first(parts, order, parts.len())),
        assemble(deliver_first(parts, order, parts.len()).chunks, parts.len()) == concat_all(parts),
{
    let n = parts.len();
    assert forall|k: nat| k < n implies !download_finished(#[trigger] deliver_first(parts, order, k)) by {
        lemma_deliver_first(parts, order, k);
    }
    lemma_deliver_first(parts, order, n);
    let d = deliver_first(parts, order, n);
    // every index below n is delivered at some step
    assert forall|x: usize| 1 <= x <= n implies #[trigger] d.chunks.contains_key(x) && d.chunks[x]
        == parts[x - 1] by {
        let want = (x - 1) as usize;
        lemma_order_covers(order, n, want);
        let j = choose|j: int| 0 <= j < n && order[j] == want;
        assert(delivery_index(order, j) == x);
        assert(d.chunks.contains_key(delivery_index(order, j)));
        assert(d.chunks[delivery_index(order, j)] == parts[order[j] as int]);
    }
    assert forall|x: usize| 1 <= x <= n implies #[trigger] d.chunks[x] == parts[x - 1] by {
        assert(d.chunks.contains_key(x));
    }
    lemma_assemble_parts(d.chunks, parts, n);
    assert(parts.take(n as int) =~= parts);
}

proof fn lemma_order_covers(order: Seq<usize>, n: nat, want: usize)
    requires
        is_order_of(order, n),
        want < n,
    ensures
        exists|j: int| 0 <= j < n && order[j] == want,
{
    if !order.contains(want) {
        let longer = order.push(want);
        assert(longer.no_duplicates()) by {
            assert forall|a: int, b: int| 0 <= a < b < longer.len() implies longer[a] != longer[b] by {
                if b == longer.len() - 1 {
                    assert(order[a] == longer[a]);
                    assert(order.contains(longer[a]));
                } else {
                    assert(order[a] == longer[a] && order[b] == longer[b]);
                }
            }
        }
        assert forall|a: int| 0 <= a < longer.len() implies #[trigger] longer[a] < n by {
            if a < order.len() {
                assert(longer[a] == order[a]);
            }
        }
        lemma_distinct_below(longer, n);
    }
}

/// No more than `n` distinct numbers lie below `n`.
pub proof fn lemma_distinct_below(s: Seq<usize>, n: nat)
    requires
        s.no_duplicates(),
        forall|a: int| 0 <= a < s.len() ==> #[trigger] s[a] < n,
    ensures
        s.len() <= n,
    decreases n,
{
    if s.len() > 0 {
        if n == 0 {
            assert(s[0] < n);
        } else {
            let top = (n - 1) as nat;
            let t = if exists|i: int| 0 <= i < s.len() && s[i] == top {
                let i = choose|i: int| 0 <= i < s.len() && s[i] == top;
                s.remove(i)
            } else {
                s
            };
            assert(t.len() >= s.len() - 1);
            assert(t.no_duplicates() && forall|a: int| 0 <= a < t.len() ==> #[trigger] t[a] < top) by {
                if exists|i: int| 0 <= i < s.len() && s[i] == top {
                    let i = choose|i: int| 0 <= i < s.len() && s[i] == top;
                    assert forall|a: int, b: int| 0 <= a < b < t.len() implies t[a] != t[b] by {
                        let a2 = if a < i { a } else { a + 1 };
                        let b2 = if b < i { b } else { b + 1 };
                        assert(t[a] == s[a2]);
                        assert(t[b] == s[b2]);
                    }
                    assert forall|a: int| 0 <= a < t.len() implies #[trigger] t[a] < top by {
                        let a2 = if a < i { a } else { a + 1 };
                        assert(t[a] == s[a2]);
                        assert(s[a2] != s[i]);
                    }
                } else {
                    assert forall|a: int| 0 <= a < t.len() implies #[trigger] t[a] < top by {
                        assert(t[a] == s[a]);
                    }
                }
            }
            lemma_distinct_below(t, top);
        }
    }
}


/// A chunk that came before changes nothing when it comes again, once the
/// number of chunks is known: neither the count nor the data held.
pub proof fn repeated_chunk_changes_nothing(d: DownloadView, index: usize, count: usize, data: Seq<u8>)
    requires
        d.chunks.contains_key(index),
        d.total_chunks > 0,
    ensures
        after_chunk(d, index, count, data) == d,
{
}

} // verus!
