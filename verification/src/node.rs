//! A peer: its state, and what each message it receives does to it.

use vstd::prelude::*;
use vstd::string::*;
use crate::chunk_name::{
    chunk_name_readable, chunks_among, entries_readable, find_chunks_for_file, max_chunk_count,
    parse_chunk_filename, parse_chunk_name_spec, sort_by_index, sorted_by_chunk_index, views_of,
};
use crate::chunker::copy_bytes;
use crate::commands::{text_body, text_readable};
use crate::download::{chunk_recorded, ChunkOutcome, Downloads, DownloadView};
use crate::scores::{
    decayed, leads_with_top, min_nat, PeerScores, CHUNK_REWARD, INITIAL_SCORE_MAX,
    INITIAL_SCORE_MIN, WRONG_PASSWORD_PENALTY, saturating_sum,
};
use crate::transfer_log::{matching_logs, search_transfer_log, FileTransferLog, Timestamp};

verus! {

/// A chunk of a file sent to the peers named in `receivers`.
pub struct FileMessage {
    pub sender: String,
    pub password: String,
    pub file_name: String,
    pub data: Vec<u8>,
    pub receivers: Vec<String>,
}

/// A request to the network for a file.
pub struct FileRequestMessage {
    pub sender: String,
    pub password: String,
    pub file_name: String,
}

/// The number of chunks of a requested file, sent before the chunks.
pub struct FileMetadataMessage {
    pub sender: String,
    pub password: String,
    pub file_name: String,
    pub total_chunks: usize,
}

/// A message received from the network, as it was read.
pub enum Incoming {
    File(FileMessage),
    Log(FileTransferLog),
    Request(FileRequestMessage),
    Metadata(FileMetadataMessage),
    /// Anything else, as text.
    Text(String),
}

/// What a peer does with a received message; the files to write and the
/// messages to publish are left to the caller, in the order given.
pub enum MessageOutcome {
    /// A chunk meant for other peers: nothing done.
    ChunkNotForUs { file_name: String },
    /// A chunk with the wrong password: the sender's score went down to `score`.
    ChunkRejected { score: i64 },
    /// A chunk with the right password whose name would put it outside this
    /// peer's directory (it holds a `/`, or is `.` or `..`): nothing stored,
    /// nothing changed.
    ChunkRefused { file_name: String },
    /// A chunk kept: to be written to `path` after making the directory `dir`;
    /// where the chunk belongs to a download, `download` tells what it did
    /// (with the file's name and the path the whole file goes to); the
    /// sender's score went up to `score`; `log` is to be published.
    ChunkStored {
        dir: String,
        path: String,
        data: Vec<u8>,
        download: Option<(String, String, ChunkOutcome)>,
        score: i64,
        log: FileTransferLog,
    },
    /// A log entry with the right password: recorded.
    LogRecorded { peer_id: String, file_name: String },
    /// A log entry with the wrong password: ignored.
    LogRejected,
    /// A request with the right password: the chunks of `file_name` stored in
    /// `dir` are to be looked for and sent to `requester`.
    RequestAccepted { dir: String, file_name: String, requester: String },
    /// A request with the wrong password: ignored.
    RequestRejected,
    /// The number of chunks of a file; `applied` tells whether the file was
    /// being downloaded.
    MetadataRecorded { file_name: String, total_chunks: usize, applied: bool },
    /// File metadata with the wrong password: ignored.
    MetadataRejected,
    /// A message from a peer with the right password.
    TextAccepted { text: String },
    /// A text without the right password: ignored.
    TextRejected,
}

/// The state of a peer: its password and id, the scores of the peers it
/// knows, the file transfer log and the downloads in progress.
pub struct PeerNode {
    pub password: String,
    pub local_peer_id: String,
    pub scores: PeerScores,
    pub logs: Vec<FileTransferLog>,
    pub downloads: Downloads,
}

/// The views of a list of strings.
pub open spec fn names_of(v: Seq<String>) -> Seq<Seq<char>> {
    v.map_values(|s: String| s@)
}

/// The directory a peer stores files in: `./<peer id>/`.
pub open spec fn store_dir(local: Seq<char>) -> Seq<char> {
    seq!['.', '/'] + local + seq!['/']
}

/// A name holds no path separator `/`.
pub open spec fn has_no_separator(name: Seq<char>) -> bool {
    forall|i: int| 0 <= i < name.len() ==> #[trigger] name[i] != '/'
}

/// A file name that keeps a file inside the directory it is put in: a single
/// path component (no `/`) that is neither `.` nor `..`.
pub open spec fn file_name_safe(name: Seq<char>) -> bool {
    &&& has_no_separator(name)
    &&& name != seq!['.']
    &&& name != seq!['.', '.']
}

/// The text before the last `(` of a name without `/` has no `/` either.
pub proof fn no_separator_prefix(name: Seq<char>, k: int)
    requires
        has_no_separator(name),
        0 <= k <= name.len(),
    ensures
        has_no_separator(name.take(k)),
{
    let t = name.take(k);
    assert forall|i: int| 0 <= i < t.len() implies #[trigger] t[i] != '/' by {
        assert(t[i] == name[i]);
    }
}

/// Whether `name` keeps a file inside the directory it is put in.
pub fn is_safe_file_name(name: &str) -> (res: bool)
    ensures
        res == file_name_safe(name@),
{
    let v = crate::text::chars_of(name);
    let mut i: usize = 0;
    while i < v.len()
        invariant
            v@ == name@,
            i <= v.len(),
            forall|j: int| 0 <= j < i ==> #[trigger] v@[j] != '/',
        decreases v.len() - i,
    {
        if v[i] == '/' {
            return false;
        }
        i = i + 1;
    }
    if v.len() == 1 && v[0] == '.' {
        assert(v@ =~= seq!['.']);
        return false;
    }
    if v.len() == 2 && v[0] == '.' && v[1] == '.' {
        assert(v@ =~= seq!['.', '.']);
        return false;
    }
    proof {
        if v@ == seq!['.'] {
            assert(v@[0] == '.');
        }
        if v@ == seq!['.', '.'] {
            assert(v@[0] == '.' && v@[1] == '.');
        }
    }
    true
}

/// The path a received file named `name` is written to: the directory, a
/// slash, and the name.
pub open spec fn store_path(local: Seq<char>, name: Seq<char>) -> Seq<char> {
    store_dir(local) + seq!['/'] + name
}

/// The messages whose handling is defined: a chunk for this peer with the
/// right password carries a readable chunk name, and a text with the password
/// has an ASCII character after it.
pub open spec fn message_readable(node: &PeerNode, msg: &Incoming) -> bool {
    match msg {
        Incoming::File(m) => (names_of(m.receivers@).contains(node.local_peer_id@) && m.password@
            == node.password@) ==> chunk_name_readable(m.file_name@),
        Incoming::Text(t) => text_readable(t@, node.password@),
        _ => true,
    }
}

impl PeerNode {
    pub open spec fn wf(&self) -> bool {
        self.scores.wf() && self.downloads.wf()
    }

    /// A peer with password `password` and id `local_peer_id` that knows no
    /// one yet.
    pub fn new(password: &str, local_peer_id: &str) -> (res: Self)
        ensures
            res.wf(),
            res.password@ == password@,
            res.local_peer_id@ == local_peer_id@,
            res.scores@ == Map::<Seq<char>, int>::empty(),
            res.logs@ == Seq::<FileTransferLog>::empty(),
            res.downloads@ == Map::<Seq<char>, DownloadView>::empty(),
    {
        PeerNode {
            password: String::from_str(password),
            local_peer_id: String::from_str(local_peer_id),
            scores: PeerScores::new(),
            logs: Vec::new(),
            downloads: Downloads::new(),
        }
    }

    /// The directory this peer stores files in.
    pub fn store_directory(&self) -> (res: String)
        ensures
            res@ == store_dir(self.local_peer_id@),
    {
        proof {
            reveal_strlit("./");
            reveal_strlit("/");
            assert("./"@ =~= seq!['.', '/']);
            assert("/"@ =~= seq!['/']);
        }
        let mut s = String::from_str("./");
        s.append(self.local_peer_id.as_str());
        s.append("/");
        s
    }

    /// The path a received file named `name` is written to.
    pub fn store_path(&self, name: &str) -> (res: String)
        ensures
            res@ == store_path(self.local_peer_id@, name@),
    {
        proof {
            reveal_strlit("/");
            assert("/"@ =~= seq!['/']);
        }
        let mut s = self.store_directory();
        s.append("/");
        s.append(name);
        s
    }
}

fn lists_receiver(receivers: &Vec<String>, who: &String) -> (res: bool)
    ensures
        res == names_of(receivers@).contains(who@),
{
    let mut i: usize = 0;
    while i < receivers.len()
        invariant
            i <= receivers@.len(),
            forall|j: int| 0 <= j < i ==> receivers@[j]@ != who@,
        decreases receivers.len() - i,
    {
        if receivers[i] == *who {
            assert(names_of(receivers@)[i as int] == who@);
            return true;
        }
        i = i + 1;
    }
    proof {
        if names_of(receivers@).contains(who@) {
            let k = choose|k: int| 0 <= k < names_of(receivers@).len() && names_of(receivers@)[k] == who@;
            assert(receivers@[k]@ == who@);
        }
    }
    false
}


/// A score after `delta` is added to a peer's, which is 0 for a peer not
/// known yet.
pub open spec fn bumped(scores: Map<Seq<char>, int>, peer: Seq<char>, delta: int) -> int {
    saturating_sum(
        if scores.contains_key(peer) {
            scores[peer]
        } else {
            0
        },
        delta,
    )
}

/// What handling `msg`, received from the peer `from` at the time `now`, does
/// to the peer `before`, giving `after` and the outcome `res`.
pub open spec fn message_handled(
    before: PeerNode,
    after: PeerNode,
    from: Seq<char>,
    msg: Incoming,
    now: Timestamp,
    res: MessageOutcome,
) -> bool {
    let local = before.local_peer_id@;
    let password = before.password@;
    &&& after.password == before.password
    &&& after.local_peer_id == before.local_peer_id
    &&& match msg {
        Incoming::File(m) => {
            if !names_of(m.receivers@).contains(local) {
                &&& res matches MessageOutcome::ChunkNotForUs { file_name } && file_name@
                    == m.file_name@
                &&& after.scores@ == before.scores@
                &&& after.logs@ == before.logs@
                &&& after.downloads@ == before.downloads@
            } else if m.password@ != password {
                let s = bumped(before.scores@, from, WRONG_PASSWORD_PENALTY as int);
                &&& res matches MessageOutcome::ChunkRejected { score } && score == s
                &&& after.scores@ == before.scores@.insert(from, s)
                &&& after.logs@ == before.logs@
                &&& after.downloads@ == before.downloads@
            } else if !file_name_safe(m.file_name@) {
                &&& res matches MessageOutcome::ChunkRefused { file_name } && file_name@
                    == m.file_name@
                &&& after.scores@ == before.scores@
                &&& after.logs@ == before.logs@
                &&& after.downloads@ == before.downloads@
            } else {
                let s = bumped(before.scores@, from, CHUNK_REWARD as int);
                &&& res matches MessageOutcome::ChunkStored { dir, path, data, download, score, log }
                    && {
                    &&& dir@ == store_dir(local)
                    &&& path@ == store_path(local, m.file_name@)
                    &&& data@ == m.data@
                    &&& score == s
                    &&& log.peer_id@ == local && log.file_name@ == m.file_name@ && log.timestamp
                        == now && log.password@ == password
                    &&& match parse_chunk_name_spec(m.file_name@) {
                        None => download is None && after.downloads@ == before.downloads@,
                        Some((file, index, count)) => download matches Some((f, p, outcome))
                            && f@ == file && has_no_separator(file) && p@ == store_path(local, file)
                            && index <= usize::MAX
                            && count <= usize::MAX && chunk_recorded(
                            before.downloads@,
                            after.downloads@,
                            file,
                            index as usize,
                            count as usize,
                            m.data@,
                            outcome,
                        ),
                    }
                }
                &&& after.scores@ == before.scores@.insert(from, s)
                &&& after.logs@ == before.logs@
            }
        },
        Incoming::Log(l) => {
            &&& after.scores@ == before.scores@
            &&& after.downloads@ == before.downloads@
            &&& if l.password@ == password {
                &&& res matches MessageOutcome::LogRecorded { peer_id, file_name } && peer_id@
                    == l.peer_id@ && file_name@ == l.file_name@
                &&& after.logs@ == before.logs@.push(l)
            } else {
                &&& res is LogRejected
                &&& after.logs@ == before.logs@
            }
        },
        Incoming::Request(r) => {
            &&& after.scores@ == before.scores@
            &&& after.downloads@ == before.downloads@
            &&& after.logs@ == before.logs@
            &&& if r.password@ == password {
                res matches MessageOutcome::RequestAccepted { dir, file_name, requester } && dir@
                    == store_dir(local) && file_name@ == r.file_name@ && requester@ == r.sender@
            } else {
                res is RequestRejected
            }
        },
        Incoming::Metadata(m) => {
            &&& after.scores@ == before.scores@
            &&& after.logs@ == before.logs@
            &&& if m.password@ == password {
                &&& res matches MessageOutcome::MetadataRecorded {
                    file_name,
                    total_chunks,
                    applied,
                } && file_name@ == m.file_name@ && total_chunks == m.total_chunks && applied
                    == before.downloads@.contains_key(m.file_name@)
                &&& after.downloads@ == if before.downloads@.contains_key(m.file_name@) {
                    before.downloads@.insert(
                        m.file_name@,
                        DownloadView {
                            total_chunks: m.total_chunks as nat,
                            ..before.downloads@[m.file_name@]
                        },
                    )
                } else {
                    before.downloads@
                }
            } else {
                &&& res is MetadataRejected
                &&& after.downloads@ == before.downloads@
            }
        },
        Incoming::Text(t) => {
            &&& after.scores@ == before.scores@
            &&& after.logs@ == before.logs@
            &&& after.downloads@ == before.downloads@
            &&& if password.is_prefix_of(t@) {
                res matches MessageOutcome::TextAccepted { text } && text@ == t@.skip(
                    password.len() + 1 as int,
                )
            } else {
                res is TextRejected
            }
        },
    }
}

impl PeerNode {
    /// Handles a message received from the peer `from` at the time `now`.
    pub fn handle_received_message(&mut self, from: &str, msg: Incoming, now: Timestamp) -> (res:
        MessageOutcome)
        requires
            old(self).wf(),
            message_readable(old(self), &msg),
        ensures
            final(self).wf(),
            message_handled(*old(self), *final(self), from@, msg, now, res),
    {
        match msg {
            Incoming::File(m) => {
                if !lists_receiver(&m.receivers, &self.local_peer_id) {
                    return MessageOutcome::ChunkNotForUs { file_name: m.file_name };
                }
                if m.password != self.password {
                    self.scores.update_peer_score(from, WRONG_PASSWORD_PENALTY);
                    let score = match self.scores.score_of(from) {
                        Some(s) => s,
                        None => 0,
                    };
                    return MessageOutcome::ChunkRejected { score };
                }
                if !is_safe_file_name(m.file_name.as_str()) {
                    return MessageOutcome::ChunkRefused { file_name: m.file_name };
                }
                let dir = self.store_directory();
                let path = self.store_path(m.file_name.as_str());
                let kept = copy_bytes(m.data.as_slice(), 0, m.data.len());
                assert(kept@ =~= m.data@);
                let download = match parse_chunk_filename(m.file_name.as_str()) {
                    Some((file, index, count)) => {
                        proof {
                            crate::text::lemma_last_index_in_range(m.file_name@, '(');
                            no_separator_prefix(m.file_name@, crate::text::last_index_of(m.file_name@, '(').unwrap());
                        }
                        let out_path = self.store_path(file.as_str());
                        let copy = copy_bytes(m.data.as_slice(), 0, m.data.len());
                        assert(copy@ =~= m.data@);
                        let outcome = self.downloads.record_chunk(file.as_str(), index, count, copy);
                        Some((file, out_path, outcome))
                    },
                    None => None,
                };
                self.scores.update_peer_score(from, CHUNK_REWARD);
                let score = match self.scores.score_of(from) {
                    Some(s) => s,
                    None => 0,
                };
                let log = FileTransferLog {
                    peer_id: self.local_peer_id.clone(),
                    file_name: m.file_name,
                    timestamp: now,
                    password: self.password.clone(),
                };
                MessageOutcome::ChunkStored { dir, path, data: kept, download, score, log }
            },
            Incoming::Log(l) => {
                if l.password == self.password {
                    let peer_id = l.peer_id.clone();
                    let file_name = l.file_name.clone();
                    self.logs.push(l);
                    MessageOutcome::LogRecorded { peer_id, file_name }
                } else {
                    MessageOutcome::LogRejected
                }
            },
            Incoming::Request(r) => {
                if r.password == self.password {
                    MessageOutcome::RequestAccepted {
                        dir: self.store_directory(),
                        file_name: r.file_name,
                        requester: r.sender,
                    }
                } else {
                    MessageOutcome::RequestRejected
                }
            },
            Incoming::Metadata(m) => {
                if m.password == self.password {
                    let applied = self.downloads.is_downloading(m.file_name.as_str());
                    self.downloads.set_total_chunks(m.file_name.as_str(), m.total_chunks);
                    MessageOutcome::MetadataRecorded {
                        file_name: m.file_name,
                        total_chunks: m.total_chunks,
                        applied,
                    }
                } else {
                    MessageOutcome::MetadataRejected
                }
            },
            Incoming::Text(t) => {
                match text_body(t.as_str(), self.password.as_str()) {
                    Some(text) => MessageOutcome::TextAccepted { text },
                    None => MessageOutcome::TextRejected,
                }
            },
        }
    }
}


/// The number of peers each chunk of an uploaded file is sent to.
pub const UPLOAD_REDUNDANCY: usize = 3;

impl PeerNode {
    /// The message that sends chunk `chunk_name`, holding `data`, to the peers
    /// chosen for it (see `PeerScores::select_peers`), or `None` where no
    /// peer is known.
    pub fn chunk_upload_message(&self, chunk_name: String, data: Vec<u8>) -> (res: Option<FileMessage>)
        requires
            self.wf(),
        ensures
            res is None <==> self.scores@.len() == 0,
            match res {
                Some(m) => {
                    &&& m.sender@ == self.local_peer_id@
                    &&& m.password@ == self.password@
                    &&& m.file_name@ == chunk_name@
                    &&& m.data@ == data@
                    &&& names_of(m.receivers@).no_duplicates()
                    &&& m.receivers@.len() == min_nat(UPLOAD_REDUNDANCY as nat, self.scores@.len())
                    &&& forall|i: int| 0 <= i < m.receivers@.len() ==> self.scores@.contains_key(
                        #[trigger] m.receivers@[i]@,
                    )
                    &&& leads_with_top(
                        names_of(m.receivers@),
                        self.scores@,
                        min_nat((UPLOAD_REDUNDANCY - 1) as nat, self.scores@.len()),
                    )
                },
                None => true,
            },
    {
        let receivers = self.scores.select_peers(UPLOAD_REDUNDANCY);
        if receivers.len() == 0 {
            return None;
        }
        Some(
            FileMessage {
                sender: self.local_peer_id.clone(),
                password: self.password.clone(),
                file_name: chunk_name,
                data,
                receivers,
            },
        )
    }

    /// The request for the file `file_name`.
    pub fn file_request(&self, file_name: &str) -> (res: FileRequestMessage)
        ensures
            res.sender@ == self.local_peer_id@,
            res.password@ == self.password@,
            res.file_name@ == file_name@,
    {
        FileRequestMessage {
            sender: self.local_peer_id.clone(),
            password: self.password.clone(),
            file_name: String::from_str(file_name),
        }
    }

    /// Starts (afresh) the download of `file_name`, once its request is out.
    pub fn download_requested(&mut self, file_name: &str)
        requires
            old(self).wf(),
        ensures
            final(self).wf(),
            final(self).password == old(self).password,
            final(self).local_peer_id == old(self).local_peer_id,
            final(self).scores@ == old(self).scores@,
            final(self).logs@ == old(self).logs@,
            final(self).downloads@ == old(self).downloads@.insert(
                file_name@,
                crate::download::fresh_download(),
            ),
    {
        self.downloads.start_download(file_name);
    }

    /// The answer to a request for `file_name`, given the names of the files in
    /// this peer's directory: the file's metadata and the names of its stored
    /// chunks in order, or `None` where none is stored.
    pub fn answer_request(&self, entries: &Vec<String>, file_name: &str) -> (res: Option<
        (FileMetadataMessage, Vec<String>),
    >)
        requires
            entries_readable(views_of(entries@), file_name@),
        ensures
            match res {
                None => chunks_among(views_of(entries@), file_name@).len() == 0,
                Some((meta, files)) => {
                    &&& meta.sender@ == self.local_peer_id@
                    &&& meta.password@ == self.password@
                    &&& meta.file_name@ == file_name@
                    &&& meta.total_chunks as nat == max_chunk_count(
                        chunks_among(views_of(entries@), file_name@),
                    )
                    &&& chunks_among(views_of(entries@), file_name@).len() > 0
                    &&& views_of(files@).to_multiset() == chunks_among(
                        views_of(entries@),
                        file_name@,
                    ).to_multiset()
                    &&& sorted_by_chunk_index(views_of(files@))
                    &&& views_of(files@) == sort_by_index(
                        chunks_among(views_of(entries@), file_name@),
                    )
                },
            },
    {
        match find_chunks_for_file(entries, file_name) {
            None => None,
            Some((total, files)) => Some(
                (
                    FileMetadataMessage {
                        sender: self.local_peer_id.clone(),
                        password: self.password.clone(),
                        file_name: String::from_str(file_name),
                        total_chunks: total,
                    },
                    files,
                ),
            ),
        }
    }

    /// The message that sends the stored chunk `chunk_file`, holding `data`,
    /// to the peer `requester` alone.
    pub fn chunk_reply(&self, chunk_file: String, data: Vec<u8>, requester: &str) -> (res: FileMessage)
        ensures
            res.sender@ == self.local_peer_id@,
            res.password@ == self.password@,
            res.file_name@ == chunk_file@,
            res.data@ == data@,
            names_of(res.receivers@) == seq![requester@],
    {
        let mut receivers: Vec<String> = Vec::new();
        receivers.push(String::from_str(requester));
        assert(names_of(receivers@) =~= seq![requester@]);
        FileMessage {
            sender: self.local_peer_id.clone(),
            password: self.password.clone(),
            file_name: chunk_file,
            data,
            receivers,
        }
    }

    /// A peer was discovered: it starts with a score drawn between
    /// `INITIAL_SCORE_MIN` and `INITIAL_SCORE_MAX` unless it is known.
    pub fn peer_discovered(&mut self, peer: &str)
        requires
            old(self).wf(),
        ensures
            final(self).wf(),
            final(self).password == old(self).password,
            final(self).local_peer_id == old(self).local_peer_id,
            final(self).logs@ == old(self).logs@,
            final(self).downloads@ == old(self).downloads@,
            old(self).scores@.contains_key(peer@) ==> final(self).scores@ == old(self).scores@,
            !old(self).scores@.contains_key(peer@) ==> {
                &&& final(self).scores@.contains_key(peer@)
                &&& INITIAL_SCORE_MIN <= final(self).scores@[peer@] <= INITIAL_SCORE_MAX
                &&& final(self).scores@ == old(self).scores@.insert(peer@, final(self).scores@[peer@])
            },
    {
        self.scores.discover_peer(peer);
    }

    /// The periodic round: peers no longer connected are forgotten and the
    /// others' scores decay.
    pub fn decay_round(&mut self, connected: &Vec<String>)
        requires
            old(self).wf(),
        ensures
            final(self).wf(),
            final(self).password == old(self).password,
            final(self).local_peer_id == old(self).local_peer_id,
            final(self).logs@ == old(self).logs@,
            final(self).downloads@ == old(self).downloads@,
            forall|p: Seq<char>|
                #[trigger] final(self).scores@.contains_key(p) <==> old(self).scores@.contains_key(p)
                    && names_of(connected@).contains(p),
            forall|p: Seq<char>|
                #[trigger] final(self).scores@.contains_key(p) ==> final(self).scores@[p] == decayed(
                    old(self).scores@[p],
                ),
    {
        self.scores.remove_disconnected_peers_and_decay_scores(connected);
    }

    /// The whole file transfer log (what `@check_logs` shows).
    pub fn transfer_logs(&self) -> (res: Vec<FileTransferLog>)
        ensures
            res@ == self.logs@,
    {
        let res = search_transfer_log(&self.logs, None, None, None);
        proof {
            lemma_match_everything(self.logs@);
        }
        res
    }
}

/// A search that asks for nothing passes every entry, in order.
pub proof fn search_without_conditions_keeps_all(logs: Seq<FileTransferLog>)
    ensures
        matching_logs(logs, None, None, None) == logs,
{
    lemma_match_everything(logs);
}

proof fn lemma_match_everything(logs: Seq<FileTransferLog>)
    ensures
        matching_logs(logs, None, None, None) == logs,
    decreases logs.len(),
{
    if logs.len() > 0 {
        lemma_match_everything(logs.drop_last());
        assert(logs.drop_last().push(logs.last()) =~= logs);
    } else {
        assert(logs =~= Seq::<FileTransferLog>::empty());
    }
}


/// A chunk sent as chunk `index` of `count` of the file `file`, received by a
/// peer it is meant for that shares the password, is stored and goes into that
/// peer's download of `file` as chunk `index` of `count`, holding the data that
/// was sent.
pub proof fn uploaded_chunk_is_recorded(
    before: PeerNode,
    after: PeerNode,
    from: Seq<char>,
    file: Seq<char>,
    index: usize,
    count: usize,
    m: FileMessage,
    now: Timestamp,
    res: MessageOutcome,
)
    requires
        m.file_name@ == crate::chunk_name::chunk_name_spec(file, index as nat, count as nat),
        has_no_separator(file),
        m.password@ == before.password@,
        names_of(m.receivers@).contains(before.local_peer_id@),
        message_handled(before, after, from, Incoming::File(m), now, res),
    ensures
        message_readable(&before, &Incoming::File(m)),
        res matches MessageOutcome::ChunkStored { data, download, .. } && {
            &&& data@ == m.data@
            &&& download matches Some((f, _, outcome)) && {
                &&& f@ == file
                &&& chunk_recorded(
                    before.downloads@,
                    after.downloads@,
                    file,
                    index,
                    count,
                    m.data@,
                    outcome,
                )
            }
        },
{
    crate::chunk_name::chunk_name_round_trip(file, index, count);
    safe_chunk_name(file, index, count);
}

/// Handling a message keeps every download counting its chunks right, starts
/// no download, and loses no chunk a download held: each file still
/// downloaded keeps every chunk it had, with the same bytes.
pub proof fn message_keeps_downloads(
    before: PeerNode,
    after: PeerNode,
    from: Seq<char>,
    msg: Incoming,
    now: Timestamp,
    res: MessageOutcome,
)
    requires
        before.wf(),
        message_handled(before, after, from, msg, now, res),
    ensures
        crate::download::all_count_right(after.downloads@),
        crate::download::keeps_chunks(before.downloads@, after.downloads@),
{
    before.downloads.lemma_counts_right();
    match msg {
        Incoming::File(m) => {
            if names_of(m.receivers@).contains(before.local_peer_id@) && m.password@
                == before.password@ && file_name_safe(m.file_name@) {
                match parse_chunk_name_spec(m.file_name@) {
                    Some((file, index, count)) => {
                        if let MessageOutcome::ChunkStored { download: Some((_, _, outcome)), .. } = res {
                            crate::download::chunk_keeps_downloads(
                                before.downloads@,
                                after.downloads@,
                                file,
                                index as usize,
                                count as usize,
                                m.data@,
                                outcome,
                            );
                        }
                    },
                    None => {},
                }
            }
        },
        Incoming::Metadata(m) => {
            let name = m.file_name@;
            if m.password@ == before.password@ && before.downloads@.contains_key(name) {
                assert(crate::download::counts_right(before.downloads@[name]));
                assert forall|n: Seq<char>| #[trigger] after.downloads@.contains_key(n) implies
                    crate::download::counts_right(after.downloads@[n]) by {
                    if n != name {
                        assert(before.downloads@.contains_key(n));
                    }
                }
            }
        },
        _ => {},
    }
}

/// Every chunk meant for this peer that carries the right password and a safe
/// name earns its sender half a point (50 hundredths; from 0 for a sender not
/// known yet), whether or not a download already holds that chunk or any
/// download wants it; only at the greatest score an `i64` holds does the
/// score stay there. No other peer's score changes.
pub proof fn every_accepted_chunk_rewards_sender(
    before: PeerNode,
    after: PeerNode,
    from: Seq<char>,
    m: FileMessage,
    now: Timestamp,
    res: MessageOutcome,
)
    requires
        before.wf(),
        names_of(m.receivers@).contains(before.local_peer_id@),
        m.password@ == before.password@,
        file_name_safe(m.file_name@),
        message_handled(before, after, from, Incoming::File(m), now, res),
    ensures
        ({
            let old_score = if before.scores@.contains_key(from) {
                before.scores@[from]
            } else {
                0
            };
            let new_score = if old_score + 50 > i64::MAX {
                i64::MAX as int
            } else {
                old_score + 50
            };
            &&& res matches MessageOutcome::ChunkStored { score, .. } && score == new_score
            &&& after.scores@.contains_key(from)
            &&& after.scores@[from] == new_score
            &&& forall|p: Seq<char>|
                p != from ==> (after.scores@.contains_key(p) == before.scores@.contains_key(p)
                    && (#[trigger] after.scores@[p]) == before.scores@[p])
        }),
{
    before.scores.lemma_finite_and_bounded();
}

/// A chunk meant for this peer that carries the wrong password costs its
/// sender one hundredth of a point (from 0 for a sender not known yet) and
/// changes nothing else: no log, no download, no file. (At the least score an
/// `i64` holds, the score stays where it is.)
pub proof fn wrong_password_costs_sender(
    before: PeerNode,
    after: PeerNode,
    from: Seq<char>,
    m: FileMessage,
    now: Timestamp,
    res: MessageOutcome,
)
    requires
        before.wf(),
        names_of(m.receivers@).contains(before.local_peer_id@),
        m.password@ != before.password@,
        !(before.scores@.contains_key(from) && before.scores@[from] == i64::MIN),
        message_handled(before, after, from, Incoming::File(m), now, res),
    ensures
        ({
            let old_score = if before.scores@.contains_key(from) {
                before.scores@[from]
            } else {
                0
            };
            &&& res matches MessageOutcome::ChunkRejected { score } && score == old_score - 1
            &&& after.scores@ == before.scores@.insert(from, old_score - 1)
            &&& after.logs@ == before.logs@
            &&& after.downloads@ == before.downloads@
        }),
{
    before.scores.lemma_finite_and_bounded();
}

/// The name of a chunk of a file whose name holds no `/` is safe.
pub proof fn safe_chunk_name(file: Seq<char>, index: usize, count: usize)
    requires
        has_no_separator(file),
    ensures
        file_name_safe(crate::chunk_name::chunk_name_spec(file, index as nat, count as nat)),
{
    let di = crate::text::decimal(index as nat);
    let dn = crate::text::decimal(count as nat);
    crate::text::lemma_decimal_digits(index as nat);
    crate::text::lemma_decimal_digits(count as nat);
    let tail = seq!['('] + di + crate::chunk_name::of_separator() + dn + seq![')'];
    let full = crate::chunk_name::chunk_name_spec(file, index as nat, count as nat);
    assert(full =~= file + tail);
    assert forall|j: int| 0 <= j < tail.len() implies #[trigger] tail[j] != '/' by {
        if 1 <= j < 1 + di.len() {
            assert(tail[j] == di[j - 1]);
            assert(crate::text::is_digit(di[j - 1]));
        } else if 1 + di.len() + 4 <= j < 1 + di.len() + 4 + dn.len() {
            assert(tail[j] == dn[j - 1 - di.len() - 4]);
            assert(crate::text::is_digit(dn[j - 1 - di.len() - 4]));
        } else if 1 + di.len() <= j < 1 + di.len() + 4 {
            assert(tail[j] == crate::chunk_name::of_separator()[j - 1 - di.len()]);
        }
    }
    assert forall|i: int| 0 <= i < full.len() implies #[trigger] full[i] != '/' by {
        if i >= file.len() {
            assert(full[i] == tail[i - file.len()]);
        }
    }
    assert(full.len() > 2);
}

/// A file cut into chunks and received chunk by chunk, each once and in any
/// order, after it was asked for, is put together as the very file, at the
/// last chunk and not before.
pub proof fn file_reassembles_from_chunks(data: Seq<u8>, order: Seq<usize>)
    requires
        0 < data.len() <= usize::MAX,
        crate::download::is_order_of(
            order,
            crate::chunker::chunks_of(data, crate::chunker::CHUNK_SIZE as nat).len(),
        ),
    ensures
        ({
            let parts = crate::chunker::chunks_of(data, crate::chunker::CHUNK_SIZE as nat);
            &&& forall|k: nat|
                k < parts.len() ==> !crate::download::download_finished(
                    #[trigger] crate::download::deliver_first(parts, order, k),
                )
            &&& crate::download::download_finished(
                crate::download::deliver_first(parts, order, parts.len()),
            )
            &&& crate::download::assemble(
                crate::download::deliver_first(parts, order, parts.len()).chunks,
                parts.len(),
            ) == data
        }),
{
    let parts = crate::chunker::chunks_of(data, crate::chunker::CHUNK_SIZE as nat);
    crate::chunker::lemma_chunk_count(data, crate::chunker::CHUNK_SIZE as nat);
    crate::chunker::chunks_reassemble(data, crate::chunker::CHUNK_SIZE as nat);
    crate::download::all_chunks_complete_download(parts, order);
}

} // verus!
