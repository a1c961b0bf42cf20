//! Line framing, per-file cursors with delayed commit, and reconciliation of
//! the tracked files against a fresh scan.

use vstd::prelude::*;

use crate::buffer::{byte_at, contents};
use crate::config::{Config, EventTimeConfig};
use crate::event::{event_time_of, Event};

verus! {

/// The largest line kept whole, and the size of one read.
pub const MAX_CAPACITY: usize = 102400;

/// The line terminator.
pub const NEWLINE: u8 = 10;

/// `s` holds no terminator.
pub open spec fn no_newline(s: Seq<u8>) -> bool {
    forall|j: int| 0 <= j < s.len() ==> s[j] != NEWLINE
}

/// `i` is the position of the first terminator of `s`.
pub open spec fn first_newline_at(s: Seq<u8>, i: int) -> bool {
    0 <= i < s.len() && s[i] == NEWLINE && no_newline(s.take(i))
}

/// The length of the next frame at the front of `s`: up to and including the
/// first terminator; the whole of `s` when it has none and is at least
/// `MAX_CAPACITY` long; zero when no frame is ready yet.
pub open spec fn frame_len(s: Seq<u8>) -> int {
    if exists|i: int| first_newline_at(s, i) {
        (choose|i: int| first_newline_at(s, i)) + 1
    } else if s.len() >= MAX_CAPACITY {
        s.len() as int
    } else {
        0
    }
}

proof fn lemma_first_newline_unique(s: Seq<u8>, i: int, k: int)
    requires
        first_newline_at(s, i),
        first_newline_at(s, k),
    ensures
        i == k,
{
    if i < k {
        assert(s.take(k)[i] == NEWLINE);
    } else if k < i {
        assert(s.take(i)[k] == NEWLINE);
    }
}

/// Takes the next line off the front of `buf`: the bytes up to and including
/// the first terminator, or the whole buffer when it holds no terminator and
/// has reached `MAX_CAPACITY`. Otherwise nothing is taken.
pub fn read_line(buf: &mut bytes::BytesMut) -> (r: Option<bytes::BytesMut>)
    ensures
        frame_len(contents(*old(buf))) > 0 ==> (r matches Some(line)
            && contents(line) == contents(*old(buf)).take(frame_len(contents(*old(buf))))
            && contents(*final(buf)) == contents(*old(buf)).skip(frame_len(contents(*old(buf))))),
        frame_len(contents(*old(buf))) == 0 ==> r is None && contents(*final(buf)) == contents(*old(buf)),
{
    let ghost s = contents(*buf);
    let n = buf.len();
    let mut i: usize = 0;
    while i < n
        invariant
            n == s.len(),
            s == contents(*buf),
            s == contents(*old(buf)),
            i <= n,
            no_newline(s.take(i as int)),
        decreases n - i,
    {
        if byte_at(buf, i) == NEWLINE {
            proof {
                assert(first_newline_at(s, i as int));
                assert(exists|k: int| first_newline_at(s, k));
                let k = choose|k: int| first_newline_at(s, k);
                lemma_first_newline_unique(s, i as int, k);
                assert(frame_len(s) == i + 1);
            }
            let line = buf.split_to(i + 1);
            return Some(line);
        }
        assert(s.take(i as int + 1) =~= s.take(i as int).push(s[i as int]));
        i = i + 1;
    }
    proof {
        assert(s.take(n as int) =~= s);
        assert forall|k: int| !first_newline_at(s, k) by {
            if first_newline_at(s, k) {
                assert(s.take(n as int)[k] == NEWLINE);
            }
        }
    }
    if n >= MAX_CAPACITY {
        Some(buf.split_to(n))
    } else {
        None
    }
}

/// The final component of a path, when it has one that is valid text.
pub uninterp spec fn base_name_of(path: Seq<char>) -> Option<Seq<char>>;

/// Relies on `std::path::Path::file_name` and `OsStr::to_str`: the last
/// component of the path.
#[verifier::external_body]
fn base_name(path: &str) -> (r: Option<String>)
    ensures
        match r {
            Some(name) => base_name_of(path@) == Some(name@),
            None => base_name_of(path@) is None,
        },
{
    match std::path::Path::new(path).file_name() {
        Some(f) => f.to_str().map(String::from),
        None => None,
    }
}

/// The name under which the records of a file are sent: its base name, or
/// `none` when the path has no final component.
pub open spec fn file_name_of(path: Seq<char>) -> Seq<char> {
    match base_name_of(path) {
        Some(name) => name,
        None => "none"@,
    }
}

/// The read state of one tracked file, keyed by its inode. Times are epoch
/// milliseconds.
#[derive(Debug)]
pub struct FileInfo {
    pub path: String,
    pub inode: u64,
    pub last_write_time: u64,
    pub read_pos: u64,
    pub read_time: u64,
    pub delay_submit: bool,
}

/// The bytes of a record that is still open, if any.
pub open spec fn open_bytes(event: Option<Event>) -> Seq<u8> {
    match event {
        Some(e) => e.payload(),
        None => Seq::empty(),
    }
}

/// The payloads of a run of records, one after the other.
pub open spec fn joined(events: Seq<Event>) -> Seq<u8>
    decreases events.len(),
{
    if events.len() == 0 {
        Seq::empty()
    } else {
        joined(events.drop_last()) + events.last().payload()
    }
}

proof fn lemma_joined_push(events: Seq<Event>, e: Event)
    ensures
        joined(events.push(e)) == joined(events) + e.payload(),
{
    assert(events.push(e).drop_last() =~= events);
}

/// The bytes of the open record, if one is open.
pub open spec fn open_payload(event: Option<Event>) -> Option<Seq<u8>> {
    match event {
        Some(e) => Some(e.payload()),
        None => None,
    }
}

/// One line taken in by the assembler: with no record open, the line opens
/// one; a line with a timestamp closes the open record and opens a new one; a
/// line without one joins the open record. Gives the closed record, if any,
/// and the bytes of the record now open.
pub open spec fn assemble_step(open: Option<Seq<u8>>, line: Seq<u8>, config: EventTimeConfig) -> (Option<Seq<u8>>, Seq<u8>) {
    match open {
        None => (None, line),
        Some(o) => if event_time_of(line, config) is Some {
            (Some(o), line)
        } else {
            (None, o + line)
        },
    }
}

/// Frames every whole line of `s` and assembles them: gives the records
/// closed, in order, the record left open, and the bytes left unframed.
pub open spec fn assemble(open: Option<Seq<u8>>, s: Seq<u8>, config: EventTimeConfig) -> (Seq<Seq<u8>>, Option<Seq<u8>>, Seq<u8>)
    decreases s.len(),
{
    let n = frame_len(s);
    if n <= 0 || n > s.len() {
        (Seq::empty(), open, s)
    } else {
        let (closed, now_open) = assemble_step(open, s.take(n), config);
        let (rest, last_open, left) = assemble(Some(now_open), s.skip(n), config);
        (
            match closed {
                Some(p) => seq![p] + rest,
                None => rest,
            },
            last_open,
            left,
        )
    }
}

/// The payloads of a run of records.
pub open spec fn payloads(events: Seq<Event>) -> Seq<Seq<u8>> {
    events.map_values(|e: Event| e.payload())
}

proof fn lemma_frame_len_bounded(s: Seq<u8>)
    ensures
        0 <= frame_len(s) <= s.len(),
{
    if exists|i: int| first_newline_at(s, i) {
        let i = choose|i: int| first_newline_at(s, i);
        assert(first_newline_at(s, i));
    }
}

/// The state of one read pass over a file: the bytes read but not yet framed,
/// the record being assembled, and the offset just past the last byte read.
pub struct ReadPass {
    pub file_name: String,
    pub buf: bytes::BytesMut,
    pub event: Option<Event>,
    pub end: u64,
}

impl ReadPass {
    /// The bytes read in this pass that no committed record covers yet.
    pub open spec fn pending(&self) -> Seq<u8> {
        open_bytes(self.event) + contents(self.buf)
    }

    /// The pass belongs to `info`: everything before `info.read_pos` was
    /// committed, the rest up to `end` is pending, the open record starts at
    /// the committed offset, and no whole line waits in the buffer.
    pub open spec fn wf(&self, info: FileInfo) -> bool {
        &&& info.read_pos + self.pending().len() == self.end
        &&& frame_len(contents(self.buf)) == 0
        &&& (self.event matches Some(e) ==> e.offset == info.read_pos && e.file_name@ == self.file_name@)
    }
}

/// The cursor fields that a pass leaves alone.
pub open spec fn same_identity(a: FileInfo, b: FileInfo) -> bool {
    &&& a.path@ == b.path@
    &&& a.inode == b.inode
    &&& a.last_write_time == b.last_write_time
    &&& a.read_time == b.read_time
}

/// Where the offset and the hold flag stand after a pass that ends holding a
/// record of `held` bytes, or none: a record held once already is committed,
/// a fresh one is held back for one more pass.
pub open spec fn after_finish(read_pos: int, delay_submit: bool, held: Option<int>) -> (int, bool) {
    match held {
        Some(n) => if delay_submit {
            (read_pos + n, false)
        } else {
            (read_pos, true)
        },
        None => (read_pos, false),
    }
}

impl FileInfo {
    /// A cursor for a file seen for the first time: nothing read yet.
    pub fn new(path: String, inode: u64, last_write_time: u64) -> (r: FileInfo)
        ensures
            r.path@ == path@,
            r.inode == inode,
            r.last_write_time == last_write_time,
            r.read_pos == 0,
            r.read_time == 0,
            !r.delay_submit,
    {
        FileInfo { path, inode, last_write_time, read_pos: 0, read_time: 0, delay_submit: false }
    }

    /// The stale-read guard: a file last written before its last read is
    /// skipped. The read time is never advanced, so the guard lets every
    /// file through.
    pub fn should_read(&self) -> (r: bool)
        ensures
            r == (self.last_write_time >= self.read_time),
    {
        self.last_write_time >= self.read_time
    }

    /// Starts a read pass at the committed offset.
    pub fn begin_read(&self) -> (r: ReadPass)
        ensures
            r.wf(*self),
            r.file_name@ == file_name_of(self.path@),
            r.event is None,
            contents(r.buf).len() == 0,
            r.end == self.read_pos,
    {
        let file_name = match base_name(self.path.as_str()) {
            Some(name) => name,
            None => "none".to_owned(),
        };
        proof {
            reveal_strlit("none");
        }
        let buf = bytes::BytesMut::with_capacity(MAX_CAPACITY);
        let r = ReadPass { file_name, buf, event: None, end: self.read_pos };
        assert(r.pending() =~= Seq::<u8>::empty());
        r
    }
}

impl ReadPass {
    /// Hands one framed line to the record assembler. A line with a timestamp
    /// closes the open record, which is committed and returned, and opens a
    /// new one; a line without one is appended to the open record. With no
    /// record open, the line opens one whatever it holds.
    pub fn accept_line(&mut self, info: &mut FileInfo, line: bytes::BytesMut, config: &EventTimeConfig) -> (r: Option<Event>)
        requires
            old(info).read_pos + open_bytes(old(self).event).len() + contents(line).len() <= u64::MAX,
            old(self).event matches Some(e) ==> e.offset == old(info).read_pos && e.file_name@ == old(self).file_name@,
        ensures
            same_identity(*final(info), *old(info)),
            final(info).delay_submit == old(info).delay_submit,
            final(self).file_name@ == old(self).file_name@,
            final(self).buf == old(self).buf,
            final(self).end == old(self).end,
            final(self).event matches Some(e) && e.offset == final(info).read_pos
                && e.file_name@ == final(self).file_name@,
            match old(self).event {
                None => {
                    &&& r is None
                    &&& final(info).read_pos == old(info).read_pos
                    &&& final(self).event matches Some(e) && e.payload() == contents(line)
                        && (event_time_of(contents(line), *config) matches Some(t) ==> e.event_time == t)
                },
                Some(open) => match event_time_of(contents(line), *config) {
                    Some(t) => {
                        &&& r == Some(open)
                        &&& final(info).read_pos == old(info).read_pos + open.payload().len()
                        &&& final(self).event matches Some(e) && e.payload() == contents(line) && e.event_time == t
                    },
                    None => {
                        &&& r is None
                        &&& final(info).read_pos == old(info).read_pos
                        &&& final(self).event matches Some(e) && e.payload() == open.payload() + contents(line)
                            && e.event_time == open.event_time
                    },
                },
            },
    {
        match self.event.take() {
            None => {
                let e = Event::force_parse(line, self.file_name.clone(), info.read_pos, config);
                self.event = Some(e);
                None
            },
            Some(mut open) => {
                match crate::event::parse_event_time(&line, config) {
                    Some(t) => {
                        info.read_pos = info.read_pos + open.len();
                        self.event = Some(Event {
                            event_time: t,
                            file_name: self.file_name.clone(),
                            offset: info.read_pos,
                            buf: line,
                        });
                        Some(open)
                    },
                    None => {
                        open.buf.unsplit(line);
                        self.event = Some(open);
                        None
                    },
                }
            },
        }
    }

    /// Takes in the next chunk read from the file, frames every whole line in
    /// the buffer, and returns the records that those lines closed, in file
    /// order. Their bytes, followed by what is still pending, are exactly what
    /// was pending before, followed by the chunk; the offset moves past the
    /// returned records and no further.
    pub fn push_chunk(&mut self, info: &mut FileInfo, chunk: &[u8], config: &EventTimeConfig) -> (r: Vec<Event>)
        requires
            old(self).wf(*old(info)),
            old(self).end + chunk@.len() <= u64::MAX,
        ensures
            final(self).wf(*final(info)),
            same_identity(*final(info), *old(info)),
            final(info).delay_submit == old(info).delay_submit,
            final(self).file_name@ == old(self).file_name@,
            final(self).end == old(self).end + chunk@.len(),
            final(info).read_pos == old(info).read_pos + joined(r@).len(),
            old(info).read_pos <= final(info).read_pos <= final(self).end,
            joined(r@) + final(self).pending() == old(self).pending() + chunk@,
            forall|k: int| 0 <= k < r@.len() ==> (#[trigger] r@[k]).file_name@ == old(self).file_name@,
            ({
                let (closed, open, left) = assemble(open_payload(old(self).event), contents(old(self).buf) + chunk@, *config);
                &&& payloads(r@) == closed
                &&& open_payload(final(self).event) == open
                &&& contents(final(self).buf) == left
            }),
    {
        let ghost target = assemble(open_payload(self.event), contents(self.buf) + chunk@, *config);
        let ghost before = self.pending();
        let ghost start = info.read_pos;
        self.buf.extend_from_slice(chunk);
        self.end = self.end + chunk.len() as u64;
        assert(self.pending() =~= before + chunk@);
        let mut out: Vec<Event> = Vec::new();
        assert(payloads(out@) + target.0 =~= target.0);
        loop
            invariant
                same_identity(*info, *old(info)),
                info.delay_submit == old(info).delay_submit,
                self.file_name@ == old(self).file_name@,
                self.end == old(self).end + chunk@.len(),
                info.read_pos + self.pending().len() == self.end,
                info.read_pos == start + joined(out@).len(),
                joined(out@) + self.pending() == before + chunk@,
                self.event matches Some(e) ==> e.offset == info.read_pos && e.file_name@ == self.file_name@,
                forall|k: int| 0 <= k < out@.len() ==> (#[trigger] out@[k]).file_name@ == old(self).file_name@,
                payloads(out@) + assemble(open_payload(self.event), contents(self.buf), *config).0 == target.0,
                assemble(open_payload(self.event), contents(self.buf), *config).1 == target.1,
                assemble(open_payload(self.event), contents(self.buf), *config).2 == target.2,
            ensures
                payloads(out@) == target.0,
                open_payload(self.event) == target.1,
                contents(self.buf) == target.2,
                frame_len(contents(self.buf)) == 0,
                info.read_pos + self.pending().len() == self.end,
                info.read_pos == start + joined(out@).len(),
                joined(out@) + self.pending() == before + chunk@,
                self.event matches Some(e) ==> e.offset == info.read_pos && e.file_name@ == self.file_name@,
                forall|k: int| 0 <= k < out@.len() ==> (#[trigger] out@[k]).file_name@ == old(self).file_name@,
            decreases contents(self.buf).len(),
        {
            let ghost buf_before = contents(self.buf);
            let ghost event_before = self.event;
            proof {
                lemma_frame_len_bounded(buf_before);
            }
            match read_line(&mut self.buf) {
                Some(line) => {
                    proof {
                        assert(buf_before =~= contents(line) + contents(self.buf));
                    }
                    let ghost out_before = out@;
                    let ghost step = assemble_step(open_payload(event_before), contents(line), *config);
                    let ghost rest = assemble(Some(step.1), contents(self.buf), *config);
                    let closed = self.accept_line(info, line, config);
                    assert(open_payload(self.event) == Some(step.1));
                    match closed {
                        Some(e) => {
                            out.push(e);
                            proof {
                                lemma_joined_push(out_before, e);
                                assert(out@ =~= out_before.push(e));
                                assert(open_bytes(event_before) =~= e.payload());
                                assert(joined(out@) + self.pending() =~= joined(out_before) + open_bytes(event_before) + buf_before);
                                assert(payloads(out@) =~= payloads(out_before).push(e.payload()));
                                assert(step.0 == Some(e.payload()));
                                assert(payloads(out@) + rest.0 =~= payloads(out_before) + (seq![e.payload()] + rest.0));
                            }
                        },
                        None => {
                            proof {
                                assert(self.pending() =~= open_bytes(event_before) + buf_before);
                                assert(step.0 is None);
                            }
                        },
                    }
                },
                None => {
                    break;
                },
            }
        }
        out
    }

    /// Ends the pass. A record still open is committed and returned when the
    /// previous pass held it back already; otherwise it is held back, and the
    /// offset stays before it. With no record open the hold flag is cleared.
    pub fn finish(self, info: &mut FileInfo) -> (r: Option<Event>)
        requires
            self.wf(*old(info)),
        ensures
            same_identity(*final(info), *old(info)),
            (final(info).read_pos as int, final(info).delay_submit) == after_finish(
                old(info).read_pos as int,
                old(info).delay_submit,
                match self.event {
                    Some(e) => Some(e.payload().len() as int),
                    None => None,
                },
            ),
            r == (if old(info).delay_submit { self.event } else { None }),
            old(info).read_pos <= final(info).read_pos <= self.end,
    {
        match self.event {
            Some(e) => {
                if info.delay_submit {
                    info.read_pos = info.read_pos + e.len();
                    info.delay_submit = false;
                    Some(e)
                } else {
                    info.delay_submit = true;
                    None
                }
            },
            None => {
                info.delay_submit = false;
                None
            },
        }
    }
}

/// What a scan observed of one path: its inode and its last write time in
/// epoch milliseconds.
pub struct FileStat {
    pub path: String,
    pub inode: u64,
    pub modified: u64,
}

/// Some cursor of `files` has this inode.
pub open spec fn tracks(files: Seq<FileInfo>, inode: u64) -> bool {
    exists|j: int| 0 <= j < files.len() && files[j].inode == inode
}

/// `j` is the last position in `files` of a cursor with this inode.
pub open spec fn latest_with_inode(files: Seq<FileInfo>, inode: u64, j: int) -> bool {
    &&& 0 <= j < files.len()
    &&& files[j].inode == inode
    &&& forall|k: int| j < k < files.len() ==> files[k].inode != inode
}

/// The last position in `files` of a cursor with this inode.
pub open spec fn latest_index(files: Seq<FileInfo>, inode: u64) -> int {
    choose|j: int| latest_with_inode(files, inode, j)
}

proof fn lemma_latest_unique(files: Seq<FileInfo>, inode: u64, i: int, j: int)
    requires
        latest_with_inode(files, inode, i),
        latest_with_inode(files, inode, j),
    ensures
        i == j,
{
}

proof fn lemma_latest_exists(files: Seq<FileInfo>, inode: u64)
    requires
        tracks(files, inode),
    ensures
        latest_with_inode(files, inode, latest_index(files, inode)),
    decreases files.len(),
{
    let n = files.len() as int;
    if files[n - 1].inode == inode {
        assert(latest_with_inode(files, inode, n - 1));
    } else {
        let shorter = files.drop_last();
        let j = choose|j: int| 0 <= j < files.len() && files[j].inode == inode;
        assert(shorter[j].inode == inode);
        lemma_latest_exists(shorter, inode);
        let i = latest_index(shorter, inode);
        assert forall|k: int| i < k < files.len() implies files[k].inode != inode by {
            if k < n - 1 {
                assert(shorter[k] == files[k]);
            }
        }
        assert(latest_with_inode(files, inode, i));
    }
}

/// The cursor that reconciliation makes for an observed path: the state of
/// the last previous cursor with the same inode under the new path, or a
/// fresh cursor at offset zero.
pub open spec fn next_cursor(r: FileInfo, prev: Seq<FileInfo>, o: FileStat) -> bool {
    &&& r.path@ == o.path@
    &&& r.inode == o.inode
    &&& if tracks(prev, o.inode) {
        let p = prev[latest_index(prev, o.inode)];
        &&& r.last_write_time == p.last_write_time
        &&& r.read_pos == p.read_pos
        &&& r.read_time == p.read_time
        &&& r.delay_submit == p.delay_submit
    } else {
        &&& r.last_write_time == o.modified
        &&& r.read_pos == 0
        &&& r.read_time == 0
        &&& !r.delay_submit
    }
}

/// `next` is what reconciliation makes of `prev` and the observed paths: one
/// cursor per observed path, in order.
pub open spec fn reconciled(prev: Seq<FileInfo>, observed: Seq<FileStat>, next: Seq<FileInfo>) -> bool {
    &&& next.len() == observed.len()
    &&& forall|k: int| 0 <= k < observed.len() ==> next_cursor(#[trigger] next[k], prev, observed[k])
}

/// Builds the next set of cursors from the previous one and a fresh scan. A
/// known inode keeps its progress under its new path; an unknown one starts
/// at zero; a cursor whose inode was not observed is dropped.
pub fn reconcile_files(prev: &Vec<FileInfo>, observed: &Vec<FileStat>) -> (r: Vec<FileInfo>)
    ensures
        reconciled(prev@, observed@, r@),
{
    broadcast use vstd::std_specs::hash::group_hash_axioms;

    let mut by_inode: std::collections::HashMap<u64, usize> = std::collections::HashMap::new();
    let mut i: usize = 0;
    while i < prev.len()
        invariant
            i <= prev@.len(),
            forall|ino: u64| #[trigger] by_inode@.contains_key(ino) ==> latest_with_inode(prev@.take(i as int), ino, by_inode@[ino] as int),
            forall|j: int| 0 <= j < i ==> by_inode@.contains_key(#[trigger] prev@[j].inode),
        decreases prev@.len() - i,
    {
        let ino = prev[i].inode;
        by_inode.insert(ino, i);
        proof {
            let t = prev@.take(i as int + 1);
            assert forall|x: u64| #[trigger] by_inode@.contains_key(x) implies latest_with_inode(t, x, by_inode@[x] as int) by {
                if x != ino {
                    assert(prev@.take(i as int) =~= t.take(i as int));
                }
            }
        }
        i = i + 1;
    }
    assert(prev@.take(prev@.len() as int) =~= prev@);
    let mut out: Vec<FileInfo> = Vec::new();
    let mut k: usize = 0;
    while k < observed.len()
        invariant
            k <= observed@.len(),
            out@.len() == k,
            forall|ino: u64| #[trigger] by_inode@.contains_key(ino) ==> latest_with_inode(prev@, ino, by_inode@[ino] as int),
            forall|j: int| 0 <= j < prev@.len() ==> by_inode@.contains_key(#[trigger] prev@[j].inode),
            forall|m: int| 0 <= m < k ==> next_cursor(#[trigger] out@[m], prev@, observed@[m]),
        decreases observed@.len() - k,
    {
        let o = &observed[k];
        let cursor = match by_inode.get(&o.inode) {
            Some(j) => {
                let p = &prev[*j];
                proof {
                    assert(tracks(prev@, o.inode));
                    lemma_latest_exists(prev@, o.inode);
                    lemma_latest_unique(prev@, o.inode, *j as int, latest_index(prev@, o.inode));
                }
                FileInfo {
                    path: o.path.clone(),
                    inode: o.inode,
                    last_write_time: p.last_write_time,
                    read_pos: p.read_pos,
                    read_time: p.read_time,
                    delay_submit: p.delay_submit,
                }
            },
            None => {
                proof {
                    if tracks(prev@, o.inode) {
                        let j = choose|j: int| 0 <= j < prev@.len() && prev@[j].inode == o.inode;
                        assert(by_inode@.contains_key(prev@[j].inode));
                    }
                }
                FileInfo::new(o.path.clone(), o.inode, o.modified)
            },
        };
        out.push(cursor);
        k = k + 1;
    }
    out
}

/// The tailer's state between two scans: its settings and the cursors of the
/// files it follows.
pub struct Collect {
    pub config: Config,
    pub files: Vec<FileInfo>,
}

impl Collect {
    /// A tailer that follows no file yet.
    pub fn new(config: Config) -> (r: Collect)
        ensures
            r.config == config,
            r.files@.len() == 0,
    {
        Collect { config, files: Vec::new() }
    }

    /// Replaces the cursors by those that a fresh scan calls for.
    pub fn reconcile(&mut self, observed: Vec<FileStat>)
        ensures
            final(self).config == old(self).config,
            reconciled(old(self).files@, observed@, final(self).files@),
    {
        let next = reconcile_files(&self.files, &observed);
        self.files = next;
    }

    /// Hands the cursors out for one round of reads, leaving none behind.
    pub fn take_files(&mut self) -> (r: Vec<FileInfo>)
        ensures
            r@ == old(self).files@,
            final(self).files@.len() == 0,
            final(self).config == old(self).config,
    {
        let mut files: Vec<FileInfo> = Vec::new();
        core::mem::swap(&mut files, &mut self.files);
        files
    }

    /// Takes the cursors back after a round of reads.
    pub fn put_files(&mut self, files: Vec<FileInfo>)
        ensures
            final(self).files@ == files@,
            final(self).config == old(self).config,
    {
        self.files = files;
    }
}

/// A renamed file keeps its progress: when the cursor of an inode stood at
/// some offset and a scan finds that inode under another path, the next
/// cursor for that path carries the same offset and hold flag.
pub proof fn lemma_rename_keeps_offset(
    prev: Seq<FileInfo>,
    observed: Seq<FileStat>,
    next: Seq<FileInfo>,
    j: int,
    k: int,
)
    requires
        reconciled(prev, observed, next),
        latest_with_inode(prev, prev[j].inode, j),
        0 <= k < observed.len(),
        observed[k].inode == prev[j].inode,
    ensures
        next[k].path@ == observed[k].path@,
        next[k].inode == prev[j].inode,
        next[k].read_pos == prev[j].read_pos,
        next[k].delay_submit == prev[j].delay_submit,
{
    let ino = prev[j].inode;
    assert(next_cursor(next[k], prev, observed[k]));
    assert(tracks(prev, ino));
    lemma_latest_exists(prev, ino);
    lemma_latest_unique(prev, ino, j, latest_index(prev, ino));
}

/// Reconciling twice against the same scan changes nothing that matters:
/// each path keeps its cursor's offset, hold flag and read time.
pub proof fn lemma_rescan_idempotent(
    prev: Seq<FileInfo>,
    observed: Seq<FileStat>,
    once: Seq<FileInfo>,
    twice: Seq<FileInfo>,
)
    requires
        reconciled(prev, observed, once),
        reconciled(once, observed, twice),
    ensures
        twice.len() == once.len(),
        forall|k: int| 0 <= k < once.len() ==> {
            &&& (#[trigger] twice[k]).path@ == once[k].path@
            &&& twice[k].inode == once[k].inode
            &&& twice[k].read_pos == once[k].read_pos
            &&& twice[k].delay_submit == once[k].delay_submit
            &&& twice[k].read_time == once[k].read_time
        },
{
    assert forall|k: int| 0 <= k < once.len() implies {
        &&& (#[trigger] twice[k]).path@ == once[k].path@
        &&& twice[k].inode == once[k].inode
        &&& twice[k].read_pos == once[k].read_pos
        &&& twice[k].delay_submit == once[k].delay_submit
        &&& twice[k].read_time == once[k].read_time
    } by {
        let ino = observed[k].inode;
        assert(next_cursor(once[k], prev, observed[k]));
        assert(next_cursor(twice[k], once, observed[k]));
        assert(once[k].inode == ino);
        assert(tracks(once, ino));
        lemma_latest_exists(once, ino);
        let m = latest_index(once, ino);
        assert(next_cursor(once[m], prev, observed[m]));
    }
}

/// The delayed commit: a record still open at the end of a pass is held back
/// and the offset stays before it; when the next pass ends holding a record,
/// that record is committed, the offset moves past it, and the hold is
/// cleared. A pass that ends with no open record clears the hold.
pub proof fn lemma_held_record_commits_once(read_pos: int, delay_submit: bool, held: int)
    ensures
        after_finish(read_pos, false, Some(held)) == (read_pos, true),
        after_finish(read_pos, true, Some(held)) == (read_pos + held, false),
        after_finish(read_pos, delay_submit, None) == (read_pos, false),
{
}

/// The committed offset never passes the end of what the pass has read.
pub proof fn lemma_offset_within_read(info: FileInfo, pass: ReadPass)
    requires
        pass.wf(info),
    ensures
        info.read_pos <= pass.end,
{
}

/// `line` is one whole line: its only terminator is its last byte.
pub open spec fn is_terminated_line(line: Seq<u8>) -> bool {
    line.len() > 0 && first_newline_at(line, line.len() - 1)
}

/// Lines laid end to end.
pub open spec fn concat_lines(lines: Seq<Seq<u8>>) -> Seq<u8>
    decreases lines.len(),
{
    if lines.len() == 0 {
        Seq::empty()
    } else {
        lines[0] + concat_lines(lines.skip(1))
    }
}

proof fn lemma_frame_of_line(line: Seq<u8>, rest: Seq<u8>)
    requires
        is_terminated_line(line),
    ensures
        frame_len(line + rest) == line.len(),
        (line + rest).take(line.len() as int) == line,
        (line + rest).skip(line.len() as int) == rest,
{
    let s = line + rest;
    let i = line.len() - 1;
    assert(s.take(i) =~= line.take(i));
    assert(first_newline_at(s, i));
    let k = choose|k: int| first_newline_at(s, k);
    lemma_first_newline_unique(s, i, k);
    assert(s.take(line.len() as int) =~= line);
    assert(s.skip(line.len() as int) =~= rest);
}

proof fn lemma_continuations_join(open: Seq<u8>, lines: Seq<Seq<u8>>, left: Seq<u8>, config: EventTimeConfig)
    requires
        forall|i: int| 0 <= i < lines.len() ==> is_terminated_line(#[trigger] lines[i]),
        forall|i: int| 0 <= i < lines.len() ==> event_time_of(#[trigger] lines[i], config) is None,
        frame_len(left) == 0,
    ensures
        assemble(Some(open), concat_lines(lines) + left, config) == (
            Seq::<Seq<u8>>::empty(),
            Some(open + concat_lines(lines)),
            left,
        ),
    decreases lines.len(),
{
    if lines.len() == 0 {
        assert(concat_lines(lines) + left =~= left);
        assert(open + concat_lines(lines) =~= open);
    } else {
        let first = lines[0];
        let rest = lines.skip(1);
        assert(is_terminated_line(first));
        assert(event_time_of(first, config) is None);
        assert(concat_lines(lines) + left =~= first + (concat_lines(rest) + left));
        lemma_frame_of_line(first, concat_lines(rest) + left);
        assert forall|i: int| 0 <= i < rest.len() implies is_terminated_line(#[trigger] rest[i]) by {
            assert(rest[i] == lines[i + 1]);
        }
        assert forall|i: int| 0 <= i < rest.len() implies event_time_of(#[trigger] rest[i], config) is None by {
            assert(rest[i] == lines[i + 1]);
        }
        lemma_continuations_join(open + first, rest, left, config);
        assert(open + first + concat_lines(rest) =~= open + concat_lines(lines));
    }
}

/// A record held back at the end of a pass is found again, whole and alone,
/// by a pass that reads the same bytes with nothing new after them: its first
/// line opens it, its continuation lines join it, and it stays open with the
/// same bytes, so that pass's end commits it. Shown for records made of whole
/// lines; a synthetic line cut at `MAX_CAPACITY` is framed by where the reads
/// ended, so it is left out.
pub proof fn lemma_reread_holds_same_record(lines: Seq<Seq<u8>>, left: Seq<u8>, config: EventTimeConfig)
    requires
        lines.len() > 0,
        forall|i: int| 0 <= i < lines.len() ==> is_terminated_line(#[trigger] lines[i]),
        forall|i: int| 1 <= i < lines.len() ==> event_time_of(#[trigger] lines[i], config) is None,
        frame_len(left) == 0,
    ensures
        assemble(None, concat_lines(lines) + left, config) == (
            Seq::<Seq<u8>>::empty(),
            Some(concat_lines(lines)),
            left,
        ),
{
    let first = lines[0];
    let rest = lines.skip(1);
    assert(is_terminated_line(first));
    assert(concat_lines(lines) + left =~= first + (concat_lines(rest) + left));
    lemma_frame_of_line(first, concat_lines(rest) + left);
    assert forall|i: int| 0 <= i < rest.len() implies is_terminated_line(#[trigger] rest[i]) by {
        assert(rest[i] == lines[i + 1]);
    }
    assert forall|i: int| 0 <= i < rest.len() implies event_time_of(#[trigger] rest[i], config) is None by {
        assert(rest[i] == lines[i + 1]);
    }
    lemma_continuations_join(first, rest, left, config);
}

} // verus!
