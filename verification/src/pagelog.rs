//! The object-log writer's decisions: which sealed pages, superblocks and
//! syncs to issue for each append and flush. The caller performs them in
//! order on the log file (page writes at the end, superblock writes at
//! offset 0).

use vstd::bytes::*;
use vstd::prelude::*;

use crate::logfmt::{
    copy_into, encode_body, framed_record, frame, law_body_roundtrip, page_used, parse_body,
    parse_data_page, parse_frames, seal_page, sealed, superblock_bytes, superblock_committed,
    body_bytes, body_fits, PAGE, PAGE_HDR,
};
use crate::record::{ObjectRecord, RecordView};

verus! {

/// When the writer syncs data and moves the commit pointer.
#[derive(Clone, Copy, Debug, PartialEq, Eq, Structural)]
pub enum SyncPolicy {
    /// Never sync; every written page is committed at once.
    NoSync,
    /// Sync and commit after each page.
    Page,
    /// Sync and commit once this many pages are pending.
    Group(u32),
}

impl SyncPolicy {
    pub open spec fn group_size_spec(self) -> u32 {
        match self {
            SyncPolicy::NoSync => u32::MAX,
            SyncPolicy::Page => 1u32,
            SyncPolicy::Group(g) => g,
        }
    }

    /// Whether the policy syncs data at all.
    pub fn durable(self) -> (b: bool)
        ensures
            b == !(self is NoSync),
    {
        match self {
            SyncPolicy::NoSync => false,
            _ => true,
        }
    }

    /// Pages that may wait before a commit.
    pub fn group_size(self) -> (n: u32)
        ensures
            n == self.group_size_spec(),
    {
        match self {
            SyncPolicy::NoSync => u32::MAX,
            SyncPolicy::Page => 1,
            SyncPolicy::Group(n) => n,
        }
    }
}

/// One step for the caller to perform on the log file.
#[derive(Debug)]
pub enum LogWrite {
    /// Append this sealed data page at the end of the written pages.
    Page(Vec<u8>),
    /// Overwrite page 0 with this superblock.
    Superblock(Vec<u8>),
    /// `sync_data` the file.
    Sync,
    /// Replace the join checkpoint file beside the log with these bytes.
    Checkpoint(Vec<u8>),
    /// Replace the join delta file beside the log with these bytes.
    Delta(Vec<u8>),
    /// Remove the join delta file beside the log, if there is one.
    DropDelta,
}

/// Whether the writer `w` takes `r`: its body can be written, its frame fits
/// a page, and when the current page is too full a new page can be numbered.
pub open spec fn takes(w: PageLog, r: RecordView) -> bool {
    &&& body_fits(r)
    &&& PAGE_HDR + 2 + body_bytes(r).len() <= PAGE
    &&& (PAGE_HDR + w.spec_used() + 2 + body_bytes(r).len() <= PAGE || w.spec_written() < u32::MAX)
}

/// Each step is well formed: pages sealed, superblocks naming a page count.
pub open spec fn writes_ok(ws: Seq<LogWrite>) -> bool {
    forall|i: int|
        0 <= i < ws.len() ==> match #[trigger] ws[i] {
            LogWrite::Page(p) => sealed(p@),
            LogWrite::Superblock(sb) => superblock_committed(sb@) is Some,
            LogWrite::Sync => true,
            _ => true,
        }
}

/// The records in the pages a run of steps writes, in order.
pub open spec fn pages_written(ws: Seq<LogWrite>) -> Seq<Seq<u8>>
    decreases ws.len(),
{
    if ws.len() == 0 {
        seq![]
    } else {
        let rest = pages_written(ws.drop_last());
        match ws.last() {
            LogWrite::Page(p) => rest.push(p@),
            _ => rest,
        }
    }
}

proof fn lemma_parse_frames_append(region: Seq<u8>, body: Seq<u8>)
    requires
        parse_frames(region) is Some,
        parse_body(body) is Some,
        body.len() <= 0xffff,
    ensures
        parse_frames(region + frame(body)) == Some(
            parse_frames(region).unwrap().push(parse_body(body).unwrap()),
        ),
    decreases region.len(),
{
    lemma_auto_spec_u16_to_from_le_bytes();
    let b = region + frame(body);
    if region.len() == 0 {
        assert(b =~= frame(body));
        assert(b.subrange(0, 2) =~= spec_u16_to_le_bytes(body.len() as u16));
        assert(b.subrange(2, 2 + body.len() as int) =~= body);
        assert(b.subrange(2 + body.len() as int, b.len() as int) =~= Seq::<u8>::empty());
        assert(parse_frames(Seq::<u8>::empty()) == Some(Seq::<RecordView>::empty()));
        assert(seq![parse_body(body).unwrap()] + Seq::<RecordView>::empty() =~= Seq::<
            RecordView,
        >::empty().push(parse_body(body).unwrap()));
    } else {
        let n = spec_u16_from_le_bytes(region.subrange(0, 2)) as int;
        assert(b.subrange(0, 2) =~= region.subrange(0, 2));
        assert(b.subrange(2, 2 + n) =~= region.subrange(2, 2 + n));
        let tail = region.subrange(2 + n, region.len() as int);
        assert(b.subrange(2 + n, b.len() as int) =~= tail + frame(body));
        lemma_parse_frames_append(tail, body);
        let r0 = parse_body(region.subrange(2, 2 + n)).unwrap();
        let rest = parse_frames(tail).unwrap();
        assert(seq![r0] + rest.push(parse_body(body).unwrap()) =~= (seq![r0] + rest).push(
            parse_body(body).unwrap(),
        ));
    }
}

/// Buffers framed records into a 4 KiB page and decides when a page is
/// written, synced and committed.
pub struct PageLog {
    page: Vec<u8>,
    used: usize,
    written: u32,
    committed: u32,
    sync: SyncPolicy,
    fsync_count: u64,
    /// The records framed into the current page, as they read back.
    pending: Ghost<Seq<RecordView>>,
}

impl PageLog {
    /// The writer's invariant: a full-size page buffer whose first `used`
    /// bytes after the header decode to the pending records.
    pub closed spec fn wf(&self) -> bool {
        &&& self.page@.len() == PAGE
        &&& PAGE_HDR + self.used <= PAGE
        &&& parse_frames(self.page@.subrange(PAGE_HDR as int, PAGE_HDR + self.used))
            == Some(self.pending@)
        &&& self.committed <= self.written
    }

    /// The current page's frames fit in a page.
    pub proof fn lemma_used_bound(&self)
        requires
            self.wf(),
        ensures
            self.spec_used() <= PAGE,
    {
    }

    pub closed spec fn pending_records(&self) -> Seq<RecordView> {
        self.pending@
    }

    pub closed spec fn spec_written(&self) -> u32 {
        self.written
    }

    pub closed spec fn spec_committed(&self) -> u32 {
        self.committed
    }

    pub closed spec fn spec_used(&self) -> nat {
        self.used as nat
    }

    pub closed spec fn spec_sync(&self) -> SyncPolicy {
        self.sync
    }

    pub closed spec fn spec_fsync_count(&self) -> u64 {
        self.fsync_count
    }

    /// A writer in the same state.
    pub fn duplicate(&self) -> (r: PageLog)
        requires
            self.wf(),
        ensures
            r.wf(),
            r.pending_records() == self.pending_records(),
            r.spec_written() == self.spec_written(),
            r.spec_committed() == self.spec_committed(),
            r.spec_used() == self.spec_used(),
            r.spec_sync() == self.spec_sync(),
            r.spec_fsync_count() == self.spec_fsync_count(),
    {
        let page = self.page.clone();
        assert(page@ =~= self.page@);
        PageLog {
            page,
            used: self.used,
            written: self.written,
            committed: self.committed,
            sync: self.sync,
            fsync_count: self.fsync_count,
            pending: Ghost(self.pending@),
        }
    }

    fn fresh(sync: SyncPolicy, committed: u32) -> (w: PageLog)
        ensures
            w.wf(),
            w.pending_records() == Seq::<RecordView>::empty(),
            w.spec_written() == committed,
            w.spec_committed() == committed,
            w.spec_used() == 0,
            w.spec_sync() == sync,
            w.spec_fsync_count() == 0,
    {
        let w = PageLog {
            page: vec![0u8; PAGE],
            used: 0,
            written: committed,
            committed,
            sync,
            fsync_count: 0,
            pending: Ghost(Seq::empty()),
        };
        assert(w.page@.subrange(PAGE_HDR as int, PAGE_HDR as int) =~= Seq::<u8>::empty());
        w
    }

    /// A writer for a new log: its first step writes the superblock of an
    /// empty log.
    pub fn create(sync: SyncPolicy) -> (r: (PageLog, Vec<LogWrite>))
        ensures
            r.0.wf(),
            r.0.pending_records() == Seq::<RecordView>::empty(),
            r.0.spec_written() == 0,
            r.0.spec_committed() == 0,
            r.0.spec_sync() == sync,
            writes_ok(r.1@),
            r.1@.len() >= 1,
            r.1@[0] matches LogWrite::Superblock(sb) && superblock_committed(sb@) == Some(0u32),
            pages_written(r.1@) == Seq::<Seq<u8>>::empty(),
    {
        let mut w = PageLog::fresh(sync, 0);
        let mut out: Vec<LogWrite> = Vec::new();
        w.write_superblock(&mut out);
        (w, out)
    }

    /// A writer that appends after the `committed` pages of an existing log.
    pub fn open(sync: SyncPolicy, committed: u32) -> (w: PageLog)
        ensures
            w.wf(),
            w.pending_records() == Seq::<RecordView>::empty(),
            w.spec_written() == committed,
            w.spec_committed() == committed,
            w.spec_sync() == sync,
    {
        PageLog::fresh(sync, committed)
    }

    /// Data syncs issued so far.
    pub fn fsync_count(&self) -> (n: u64)
        ensures
            n == self.spec_fsync_count(),
    {
        self.fsync_count
    }

    /// Pages the superblock names.
    pub fn committed_pages(&self) -> (n: u32)
        ensures
            n == self.spec_committed(),
    {
        self.committed
    }

    /// Pages written, committed or not.
    pub fn written_pages(&self) -> (n: u32)
        ensures
            n == self.spec_written(),
    {
        self.written
    }

    /// Bytes of frames in the current page.
    pub fn used_bytes(&self) -> (n: usize)
        ensures
            n == self.spec_used(),
    {
        self.used
    }

    fn sync_data(&mut self, out: &mut Vec<LogWrite>)
        requires
            old(self).wf(),
            writes_ok(old(out)@),
        ensures
            final(self).wf(),
            final(self).pending_records() == old(self).pending_records(),
            final(self).spec_written() == old(self).spec_written(),
            final(self).spec_committed() == old(self).spec_committed(),
            final(self).spec_used() == old(self).spec_used(),
            final(self).spec_sync() == old(self).spec_sync(),
            writes_ok(final(out)@),
            pages_written(final(out)@) == pages_written(old(out)@),
            final(out)@.len() >= old(out)@.len(),
            forall|i: int| 0 <= i < old(out)@.len() ==> #[trigger] final(out)@[i] == old(out)@[i],
            !(old(self).spec_sync() is NoSync) ==> final(out)@ == old(out)@.push(LogWrite::Sync)
                && final(self).spec_fsync_count() == (if old(self).spec_fsync_count() < u64::MAX {
                old(self).spec_fsync_count() + 1
            } else {
                old(self).spec_fsync_count() as int
            }),
            old(self).spec_sync() is NoSync ==> final(out)@ == old(out)@ && final(self).spec_fsync_count()
                == old(self).spec_fsync_count(),
    {
        if self.sync.durable() {
            let ghost before = out@;
            out.push(LogWrite::Sync);
            assert(out@.drop_last() =~= before);
            if self.fsync_count < u64::MAX {
                self.fsync_count = self.fsync_count + 1;
            }
        }
    }

    fn write_superblock(&mut self, out: &mut Vec<LogWrite>)
        requires
            old(self).wf(),
            writes_ok(old(out)@),
        ensures
            final(self).wf(),
            final(self).pending_records() == old(self).pending_records(),
            final(self).spec_written() == old(self).spec_written(),
            final(self).spec_committed() == old(self).spec_committed(),
            final(self).spec_used() == old(self).spec_used(),
            final(self).spec_sync() == old(self).spec_sync(),
            writes_ok(final(out)@),
            pages_written(final(out)@) == pages_written(old(out)@),
            final(out)@.len() > old(out)@.len(),
            final(out)@[old(out)@.len() as int] matches LogWrite::Superblock(sb)
                && superblock_committed(sb@) == Some(old(self).spec_committed()),
            forall|i: int| 0 <= i < old(out)@.len() ==> #[trigger] final(out)@[i] == old(out)@[i],
    {
        let ghost before = out@;
        out.push(LogWrite::Superblock(superblock_bytes(self.committed)));
        assert(out@.drop_last() =~= before);
        self.sync_data(out);
    }

    fn commit_pending(&mut self, out: &mut Vec<LogWrite>)
        requires
            old(self).wf(),
            writes_ok(old(out)@),
        ensures
            final(self).wf(),
            final(self).pending_records() == old(self).pending_records(),
            final(self).spec_written() == old(self).spec_written(),
            final(self).spec_committed() == old(self).spec_written(),
            final(self).spec_used() == old(self).spec_used(),
            final(self).spec_sync() == old(self).spec_sync(),
            writes_ok(final(out)@),
            pages_written(final(out)@) == pages_written(old(out)@),
            forall|i: int| 0 <= i < old(out)@.len() ==> #[trigger] final(out)@[i] == old(out)@[i],
            final(out)@.len() >= old(out)@.len(),
    {
        if self.written == self.committed {
            return;
        }
        self.sync_data(out);
        self.committed = self.written;
        self.write_superblock(out);
    }

    /// Write out the current page when it holds any frame, then commit when
    /// the sync policy says so. Fails, changing nothing, when the page count
    /// would pass `u32::MAX`.
    fn flush_page(&mut self, out: &mut Vec<LogWrite>) -> (r: Result<(), String>)
        requires
            old(self).wf(),
            writes_ok(old(out)@),
        ensures
            final(self).wf(),
            final(self).spec_sync() == old(self).spec_sync(),
            writes_ok(final(out)@),
            forall|i: int| 0 <= i < old(out)@.len() ==> #[trigger] final(out)@[i] == old(out)@[i],
            final(out)@.len() >= old(out)@.len(),
            r is Err <==> (old(self).spec_used() > 0 && old(self).spec_written() == u32::MAX),
            r is Err ==> *final(self) == *old(self) && final(out)@ == old(out)@,
            r is Ok && old(self).spec_used() == 0 ==> *final(self) == *old(self) && final(out)@ == old(
                out,
            )@,
            r is Ok && old(self).spec_used() > 0 ==> {
                &&& final(self).spec_used() == 0
                &&& final(self).pending_records() == Seq::<RecordView>::empty()
                &&& final(self).spec_written() == old(self).spec_written() + 1
                &&& exists|p: Seq<u8>|
                    pages_written(final(out)@) == pages_written(old(out)@).push(p) && sealed(p)
                        && parse_data_page(p) == Some(old(self).pending_records())
                &&& if old(self).spec_sync() is NoSync
                    || final(self).spec_written() - old(self).spec_committed() >= old(
                    self,
                ).spec_sync().group_size_spec() {
                    final(self).spec_committed() == final(self).spec_written()
                } else {
                    final(self).spec_committed() == old(self).spec_committed()
                }
            },
    {
        if self.used == 0 {
            return Ok(());
        }
        if self.written == u32::MAX {
            return Err(String::from_str("log page count overflow"));
        }
        let ghost old_page = self.page@;
        let ghost pending = self.pending@;
        let used_bytes = u16_to_le_bytes(self.used as u16);
        let mut page: Vec<u8> = vec![0u8; PAGE];
        std::mem::swap(&mut page, &mut self.page);
        copy_into(&mut page, 4, used_bytes.as_slice());
        let ghost header_written = page@;
        seal_page(&mut page);
        proof {
            lemma_auto_spec_u16_to_from_le_bytes();
            assert(page@.subrange(4, 6) =~= header_written.subrange(4, 6));
            assert(header_written.subrange(4, 6) =~= used_bytes@);
            assert(page_used(page@) == self.used as int);
            assert(page@.subrange(PAGE_HDR as int, PAGE_HDR + self.used) =~= old_page.subrange(
                PAGE_HDR as int,
                PAGE_HDR + self.used,
            ));
        }
        let ghost before = out@;
        out.push(LogWrite::Page(page));
        proof {
            assert(out@.drop_last() =~= before);
            assert(pages_written(out@) == pages_written(before).push(page@));
        }
        self.written = self.written + 1;
        self.used = 0;
        self.pending = Ghost(Seq::empty());
        assert(self.page@.subrange(PAGE_HDR as int, PAGE_HDR as int) =~= Seq::<u8>::empty());
        let ghost mid_out = out@;
        if !self.sync.durable() {
            self.committed = self.written;
            self.write_superblock(out);
            return Ok(());
        }
        let pending_pages = self.written - self.committed;
        if pending_pages >= self.sync.group_size() {
            self.commit_pending(out);
        }
        Ok(())
    }

    /// Frame `record` into the current page, first writing the page out when
    /// the frame does not fit. Fails, changing nothing, on a record that cannot
    /// be encoded, a frame larger than a page, or page-count overflow.
    #[verifier::rlimit(40)]
    pub fn append_record(&mut self, record: &ObjectRecord) -> (r: Result<Vec<LogWrite>, String>)
        requires
            old(self).wf(),
        ensures
            final(self).wf(),
            final(self).spec_sync() == old(self).spec_sync(),
            !body_fits(record@) ==> r is Err,
            body_fits(record@) && PAGE_HDR + 2 + body_bytes(record@).len() > PAGE ==> r is Err,
            body_fits(record@) && PAGE_HDR + 2 + body_bytes(record@).len() > PAGE && body_bytes(record@).len()
                <= 0xffff ==> (r matches Err(e) && e@ == "record larger than a page"@),
            takes(*old(self), record@) ==> r is Ok,
            r is Err ==> *final(self) == *old(self),
            r matches Ok(ws) ==> {
                &&& writes_ok(ws@)
                &&& body_fits(record@)
                &&& PAGE_HDR + 2 + body_bytes(record@).len() <= PAGE
                &&& final(self).spec_committed() >= old(self).spec_committed()
                &&& if pages_written(ws@).len() == 0 {
                    &&& final(self).spec_written() == old(self).spec_written()
                    &&& final(self).pending_records() == old(self).pending_records().push(
                        record@,
                    )
                } else {
                    &&& final(self).spec_written() == old(self).spec_written() + 1
                    &&& final(self).pending_records() == seq![record@]
                    &&& exists|p: Seq<u8>|
                        pages_written(ws@) == seq![p] && sealed(p) && parse_data_page(p) == Some(
                            old(self).pending_records(),
                        )
                }
            },
    {
        let body = encode_body(record)?;
        let framed = framed_record(body.as_slice())?;
        if PAGE_HDR + framed.len() > PAGE {
            return Err(String::from_str("record larger than a page"));
        }
        let mut out: Vec<LogWrite> = Vec::new();
        assert(pages_written(out@) == Seq::<Seq<u8>>::empty());
        if PAGE_HDR + self.used + framed.len() > PAGE {
            self.flush_page(&mut out)?;
            proof {
                let p = choose|p: Seq<u8>|
                    pages_written(out@) == Seq::<Seq<u8>>::empty().push(p) && sealed(p)
                        && parse_data_page(p) == Some(old(self).pending_records());
                assert(Seq::<Seq<u8>>::empty().push(p) =~= seq![p]);
            }
        }
        let ghost region = self.page@.subrange(PAGE_HDR as int, PAGE_HDR + self.used);
        proof {
            law_body_roundtrip(record@);
            lemma_parse_frames_append(region, body@);
        }
        let at = PAGE_HDR + self.used;
        let mut page: Vec<u8> = Vec::new();
        std::mem::swap(&mut page, &mut self.page);
        copy_into(&mut page, at, framed.as_slice());
        assert(page@.subrange(PAGE_HDR as int, at + framed@.len()) =~= region + frame(body@));
        self.page = page;
        self.used = at + framed.len() - PAGE_HDR;
        self.pending = Ghost(self.pending@.push(record@));
        proof {
            if old(self).spec_used() + framed@.len() + PAGE_HDR > PAGE {
                assert(Seq::<RecordView>::empty().push(record@) =~= seq![record@]);
            }
        }
        Ok(out)
    }

    /// Write out the current page and commit every written page.
    pub fn flush(&mut self) -> (r: Result<Vec<LogWrite>, String>)
        requires
            old(self).wf(),
        ensures
            final(self).wf(),
            final(self).spec_sync() == old(self).spec_sync(),
            r is Err <==> (old(self).spec_used() > 0 && old(self).spec_written() == u32::MAX),
            r is Err ==> *final(self) == *old(self),
            r matches Ok(ws) ==> {
                &&& writes_ok(ws@)
                &&& final(self).spec_used() == 0
                &&& final(self).pending_records() == Seq::<RecordView>::empty()
                &&& final(self).spec_committed() == final(self).spec_written()
                &&& if old(self).spec_used() == 0 {
                    &&& final(self).spec_written() == old(self).spec_written()
                    &&& pages_written(ws@) == Seq::<Seq<u8>>::empty()
                } else {
                    &&& final(self).spec_written() == old(self).spec_written() + 1
                    &&& exists|p: Seq<u8>|
                        pages_written(ws@) == seq![p] && sealed(p) && parse_data_page(p) == Some(
                            old(self).pending_records(),
                        )
                }
            },
    {
        let mut out: Vec<LogWrite> = Vec::new();
        assert(pages_written(out@) == Seq::<Seq<u8>>::empty());
        self.flush_page(&mut out)?;
        proof {
            if old(self).spec_used() > 0 {
                assert(Seq::<Seq<u8>>::empty().push(choose|p: Seq<u8>|
                    pages_written(out@) == Seq::<Seq<u8>>::empty().push(p) && sealed(p)
                        && parse_data_page(p) == Some(old(self).pending_records()))
                    =~= seq![choose|p: Seq<u8>|
                    pages_written(out@) == Seq::<Seq<u8>>::empty().push(p) && sealed(p)
                        && parse_data_page(p) == Some(old(self).pending_records())]);
            }
        }
        let ghost mid = out@;
        self.commit_pending(&mut out);
        Ok(out)
    }
}

} // verus!
