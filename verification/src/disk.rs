//! The disk mapper: projects the torrent's flat byte stream onto its files.
//! It computes which file ranges a piece touches; the actual reads and
//! writes are issued by the host around the library.

use vstd::prelude::*;

verus! {

use crate::torrent::{Metainfo, join_path, join_components, strings_view};
use vstd::string::StringExecFns;

/// One file as the mapper sees it: an absolute path, a length, and the
/// byte offset where it starts in the flat stream.
#[derive(Debug)]
pub struct FileInfo {
    /// Where the file lives under the download directory.
    pub path: String,
    /// File length in bytes.
    pub length: u64,
    /// Byte offset of the file's first byte in the flat stream.
    pub offset: u64,
}

impl Clone for FileInfo {
    /// An exact copy.
    fn clone(&self) -> (r: Self)
        ensures
            r.path@ == self.path@,
            r.length == self.length,
            r.offset == self.offset,
    {
        FileInfo { path: self.path.clone(), length: self.length, offset: self.offset }
    }
}

/// A queued piece write.
#[derive(Debug)]
pub struct WriteRequest {
    /// Which piece the data belongs to.
    pub piece_index: usize,
    /// The verified piece bytes.
    pub data: Vec<u8>,
}

/// The byte ranges of the flat stream assigned to the first `n` files are
/// contiguous from zero.
pub open spec fn contiguous_upto(files: Seq<FileInfo>, n: int) -> bool
    decreases n,
{
    n <= 0 || (contiguous_upto(files, n - 1) && files[n - 1].offset == if n == 1 {
        0
    } else {
        files[n - 2].offset + files[n - 2].length
    })
}

/// A file overlaps the byte range `[off, off + size)`.
pub open spec fn overlaps(f: FileInfo, off: int, size: int) -> bool {
    f.offset < off + size && f.offset + f.length > off
}

/// The mapping triples for the range `[off, off + size)` over the first
/// `n` files: for each overlapping file, its index, the start offset
/// within the file, and the byte count, in file order.
pub open spec fn range_upto(files: Seq<FileInfo>, off: int, size: int, n: int) -> Seq<
    (int, int, int),
>
    decreases n,
{
    if n <= 0 {
        Seq::empty()
    } else {
        range_upto(files, off, size, n - 1) + if overlaps(files[n - 1], off, size) {
            let fs = files[n - 1].offset as int;
            let start = if off > fs {
                off - fs
            } else {
                0
            };
            let stop = if off + size - fs < files[n - 1].length {
                off + size - fs
            } else {
                files[n - 1].length as int
            };
            seq![(n - 1, start, stop - start)]
        } else {
            Seq::empty()
        }
    }
}

/// The byte counts of mapping triples sum to this.
pub open spec fn range_sum(entries: Seq<(int, int, int)>) -> int
    decreases entries.len(),
{
    if entries.len() == 0 {
        0
    } else {
        range_sum(entries.drop_last()) + entries.last().2
    }
}

/// Projects piece-indexed ranges onto per-file ranges.
pub struct DiskManager {
    download_dir: String,
    files: Vec<FileInfo>,
    piece_length: usize,
    total_size: u64,
    write_queue: Vec<WriteRequest>,
    max_queue_size: usize,
}

impl DiskManager {
    /// The files of the mapper.
    pub closed spec fn spec_files(self) -> Seq<FileInfo> {
        self.files@
    }

    /// The uniform piece length.
    pub closed spec fn spec_piece_length(self) -> int {
        self.piece_length as int
    }

    /// The torrent's total size.
    pub closed spec fn spec_total_size(self) -> int {
        self.total_size as int
    }

    /// The queued writes.
    pub closed spec fn spec_queue(self) -> Seq<WriteRequest> {
        self.write_queue@
    }

    /// The queue's capacity.
    pub closed spec fn spec_max_queue(self) -> int {
        self.max_queue_size as int
    }

    /// File offsets are contiguous from zero.
    pub closed spec fn wf(self) -> bool {
        contiguous_upto(self.files@, self.files@.len() as int)
    }

    /// A mapper for the torrent's file table under `download_dir`.  A
    /// single file sits directly under the directory; a multi-file torrent
    /// nests its files under the torrent's name.  File offsets follow the
    /// stream order; when the summed lengths would exceed the 64-bit range
    /// the remaining offsets saturate.
    pub fn new(metainfo: &Metainfo, download_dir: String) -> (r: DiskManager)
        requires
            len_sum(metainfo.info.files@, metainfo.info.files@.len() as int) <= u64::MAX,
        ensures
            r.wf(),
            r.spec_piece_length() == metainfo.info.piece_length as usize,
            r.spec_total_size() == metainfo.info.total_size,
            r.spec_queue().len() == 0,
            r.spec_max_queue() == 100,
            metainfo.info.is_single_file ==> {
                &&& r.spec_files().len() == 1
                &&& r.spec_files()[0].path@ == join_path(
                    seq![download_dir@, metainfo.info.name@],
                )
                &&& r.spec_files()[0].length == metainfo.info.total_size
                &&& r.spec_files()[0].offset == 0
            },
            !metainfo.info.is_single_file ==> {
                &&& r.spec_files().len() == metainfo.info.files@.len()
                &&& forall|i: int| 0 <= i < r.spec_files().len() ==> {
                    &&& (#[trigger] r.spec_files()[i]).path@ == join_path(
                        seq![download_dir@, metainfo.info.name@] + strings_view(
                            metainfo.info.files@[i].path,
                        ),
                    )
                    &&& r.spec_files()[i].length == metainfo.info.files@[i].length
                }
            },
    {
        let mut files: Vec<FileInfo> = Vec::new();
        if metainfo.info.is_single_file {
            let mut parts: Vec<String> = Vec::new();
            parts.push(download_dir.clone());
            parts.push(metainfo.info.name.clone());
            let path = join_components(&parts);
            proof {
                assert(strings_view(parts) =~= seq![download_dir@, metainfo.info.name@]);
            }
            files.push(FileInfo { path, length: metainfo.info.total_size, offset: 0 });
            proof {
                assert(files@[0].offset == 0);
                assert(contiguous_upto(files@, 0));
                assert(contiguous_upto(files@, 1));
            }
        } else {
            let n = metainfo.info.files.len();
            let mut offset: u64 = 0;
            let mut i: usize = 0;
            while i < n
                invariant
                    len_sum(metainfo.info.files@, n as int) <= u64::MAX,
                    n == metainfo.info.files@.len(),
                    i <= n,
                    files@.len() == i,
                    contiguous_upto(files@, i as int),
                    offset as int == len_sum(metainfo.info.files@, i as int),
                    i > 0 ==> offset as int == files@[i - 1].offset + files@[i - 1].length,
                    forall|j: int| 0 <= j < i ==> {
                        &&& (#[trigger] files@[j]).path@ == join_path(
                            seq![download_dir@, metainfo.info.name@] + strings_view(
                                metainfo.info.files@[j].path,
                            ),
                        )
                        &&& files@[j].length == metainfo.info.files@[j].length
                    },
                decreases n - i,
            {
                let entry = &metainfo.info.files[i];
                let mut parts: Vec<String> = Vec::new();
                parts.push(download_dir.clone());
                parts.push(metainfo.info.name.clone());
                let m = entry.path.len();
                let mut c: usize = 0;
                while c < m
                    invariant
                        m == entry.path@.len(),
                        c <= m,
                        parts@.len() == 2 + c,
                        strings_view(parts) =~= seq![download_dir@, metainfo.info.name@]
                            + strings_view(entry.path).take(c as int),
                    decreases m - c,
                {
                    let ghost prev_sv = strings_view(parts);
                    parts.push(entry.path[c].clone());
                    proof {
                        let target = seq![download_dir@, metainfo.info.name@] + strings_view(
                            entry.path,
                        ).take(c + 1);
                        assert(strings_view(parts).len() == prev_sv.len() + 1);
                        assert forall|j: int| 0 <= j < strings_view(parts).len()
                            implies strings_view(parts)[j] == target[j] by {
                            if j < prev_sv.len() {
                                assert(strings_view(parts)[j] == prev_sv[j]);
                                assert(target[j] == (seq![download_dir@, metainfo.info.name@]
                                    + strings_view(entry.path).take(c as int))[j]);
                            } else {
                                assert(strings_view(parts)[j] == entry.path@[c as int]@);
                                assert(target[j] == strings_view(entry.path).take(c + 1)[
                                    c as int]);
                            }
                        }
                        assert(strings_view(parts) =~= target);
                    }
                    c = c + 1;
                }
                proof {
                    assert(strings_view(entry.path).take(m as int) =~= strings_view(entry.path));
                }
                let path = join_components(&parts);
                let ghost pre = files@;
                files.push(FileInfo { path, length: entry.length, offset });
                proof {
                    lemma_contiguous_push(pre, files@, i as int);
                    lemma_len_sum_mono(metainfo.info.files@, i + 1, n as int);
                }
                offset = offset + entry.length;
                i = i + 1;
            }
        }
        DiskManager {
            download_dir,
            files,
            piece_length: metainfo.info.piece_length as usize,
            total_size: metainfo.info.total_size,
            write_queue: Vec::new(),
            max_queue_size: 100,
        }
    }

    /// The files a byte range spans: for every file whose range intersects
    /// `[offset, offset + size)`, a copy of the file, the start offset
    /// within it, and the byte count to touch there, in file order.  A
    /// piece that crosses a file boundary thus yields the exact suffix of
    /// one file and prefix of the next.
    pub fn get_files_for_range(&self, offset: u64, size: u64) -> (r: Vec<(FileInfo, u64, usize)>)
        requires
            self.wf(),
            offset + size <= usize::MAX,
        ensures
            ({
                let entries = range_upto(
                    self.spec_files(),
                    offset as int,
                    size as int,
                    self.spec_files().len() as int,
                );
                &&& r@.len() == entries.len()
                &&& forall|k: int| 0 <= k < r@.len() ==> {
                    let e = #[trigger] entries[k];
                    &&& 0 <= e.0 < self.spec_files().len()
                    &&& r@[k].0.path@ == self.spec_files()[e.0].path@
                    &&& r@[k].0.length == self.spec_files()[e.0].length
                    &&& r@[k].0.offset == self.spec_files()[e.0].offset
                    &&& r@[k].1 == e.1
                    &&& r@[k].2 == e.2
                }
            }),
    {
        let mut out: Vec<(FileInfo, u64, usize)> = Vec::new();
        let n = self.files.len();
        let ghost allf = self.spec_files();
        let mut i: usize = 0;
        let end_offset = offset + size;
        while i < n
            invariant
                n == allf.len(),
                allf == self.spec_files(),
                i <= n,
                end_offset == offset + size <= usize::MAX,
                out@.len() == range_upto(allf, offset as int, size as int, i as int).len(),
                forall|k: int| 0 <= k < out@.len() ==> {
                    let e = #[trigger] range_upto(allf, offset as int, size as int, i as int)[k];
                    &&& 0 <= e.0 < allf.len()
                    &&& out@[k].0.path@ == allf[e.0].path@
                    &&& out@[k].0.length == allf[e.0].length
                    &&& out@[k].0.offset == allf[e.0].offset
                    &&& out@[k].1 == e.1
                    &&& out@[k].2 == e.2
                },
            decreases n - i,
        {
            let ghost pre = range_upto(allf, offset as int, size as int, i as int);
            let file_start = self.files[i].offset;
            let file_len = self.files[i].length;
            if file_start < end_offset && (offset < file_start || file_len > offset - file_start) {
                let read_start = if offset > file_start {
                    offset - file_start
                } else {
                    0
                };
                let rel_end = end_offset - file_start;
                let read_end = if rel_end < file_len {
                    rel_end
                } else {
                    file_len
                };
                let read_size = (read_end - read_start) as usize;
                out.push((self.files[i].clone(), read_start, read_size));
                proof {
                    assert(overlaps(allf[i as int], offset as int, size as int));
                    let e = (i as int, read_start as int, read_size as int);
                    assert(range_upto(allf, offset as int, size as int, i + 1) =~= pre.push(e));
                    assert forall|k: int| 0 <= k < out@.len() implies {
                        let ee = #[trigger] range_upto(allf, offset as int, size as int, i + 1)[k];
                        &&& 0 <= ee.0 < allf.len()
                        &&& out@[k].0.path@ == allf[ee.0].path@
                        &&& out@[k].0.length == allf[ee.0].length
                        &&& out@[k].0.offset == allf[ee.0].offset
                        &&& out@[k].1 == ee.1
                        &&& out@[k].2 == ee.2
                    } by {
                        if k < pre.len() {
                            assert(range_upto(allf, offset as int, size as int, i + 1)[k]
                                == pre[k]);
                        } else {
                            assert(range_upto(allf, offset as int, size as int, i + 1)[k] == e);
                        }
                    }
                }
            } else {
                proof {
                    assert(!overlaps(allf[i as int], offset as int, size as int));
                    assert(range_upto(allf, offset as int, size as int, i + 1) =~= pre);
                }
            }
            i = i + 1;
        }
        out
    }

    /// Queue a piece write, refusing when the queue is full.
    pub fn queue_write(&mut self, piece_index: usize, data: Vec<u8>) -> (r: Result<(), String>)
        requires
            old(self).wf(),
        ensures
            final(self).wf(),
            final(self).spec_files() == old(self).spec_files(),
            final(self).spec_piece_length() == old(self).spec_piece_length(),
            final(self).spec_total_size() == old(self).spec_total_size(),
            r is Ok <==> old(self).spec_queue().len() < old(self).spec_max_queue(),
            r is Ok ==> final(self).spec_queue().len() == old(self).spec_queue().len() + 1
                && final(self).spec_queue().last().piece_index == piece_index
                && final(self).spec_queue().last().data@ == data@,
            r is Err ==> final(self).spec_queue() == old(self).spec_queue(),
    {
        if self.write_queue.len() >= self.max_queue_size {
            return Err(String::from_str("write queue is full"));
        }
        self.write_queue.push(WriteRequest { piece_index, data });
        Ok(())
    }

    /// Take the queued writes for the host to flush, oldest first.
    pub fn take_queued_writes(&mut self) -> (r: Vec<WriteRequest>)
        requires
            old(self).wf(),
        ensures
            final(self).wf(),
            final(self).spec_files() == old(self).spec_files(),
            final(self).spec_piece_length() == old(self).spec_piece_length(),
            final(self).spec_total_size() == old(self).spec_total_size(),
            final(self).spec_queue().len() == 0,
            r@ == old(self).spec_queue(),
    {
        let mut drained: Vec<WriteRequest> = Vec::new();
        core::mem::swap(&mut drained, &mut self.write_queue);
        drained
    }

    /// The torrent's total size in bytes.
    pub fn total_size(&self) -> (r: u64)
        ensures
            r == self.spec_total_size(),
    {
        self.total_size
    }

    /// The uniform piece length.
    pub fn piece_length(&self) -> (r: usize)
        ensures
            r == self.spec_piece_length(),
    {
        self.piece_length
    }

    /// How many pieces the stream holds: total size in whole pieces,
    /// rounded up.
    pub fn num_pieces(&self) -> (r: usize)
        requires
            self.spec_piece_length() >= 1,
            self.spec_total_size() / self.spec_piece_length() + 1 <= usize::MAX,
        ensures
            r == (self.spec_total_size() + self.spec_piece_length() - 1)
                / self.spec_piece_length(),
    {
        let q = self.total_size / (self.piece_length as u64);
        let rem = self.total_size % (self.piece_length as u64);
        let r = if rem != 0 {
            (q + 1) as usize
        } else {
            q as usize
        };
        proof {
            vstd::arithmetic::div_mod::lemma_fundamental_div_mod(
                self.total_size as int,
                self.piece_length as int,
            );
            assert(r as int == (self.spec_total_size() + self.spec_piece_length() - 1)
                / self.spec_piece_length()) by (nonlinear_arith)
                requires
                    self.spec_total_size() == (self.spec_total_size()
                        / self.spec_piece_length()) * self.spec_piece_length() + (
                    self.spec_total_size() % self.spec_piece_length()),
                    0 <= self.spec_total_size() % self.spec_piece_length()
                        < self.spec_piece_length(),
                    self.spec_piece_length() >= 1,
                    (q as int) == self.spec_total_size() / self.spec_piece_length(),
                    (r as int) == (q as int) + if self.spec_total_size()
                        % self.spec_piece_length() != 0 {
                        1int
                    } else {
                        0int
                    },
            ;
        }
        r
    }

    /// The mapper's file table.
    pub fn files(&self) -> (r: &Vec<FileInfo>)
        ensures
            r@ == self.spec_files(),
    {
        &self.files
    }
}

/// Appending a file whose offset continues the last one keeps the table
/// contiguous.
proof fn lemma_contiguous_push(pre: Seq<FileInfo>, now: Seq<FileInfo>, n: int)
    requires
        n == pre.len(),
        now.len() == n + 1,
        forall|j: int| 0 <= j < n ==> #[trigger] now[j] == pre[j],
        contiguous_upto(pre, n),
        now[n].offset == if n == 0 {
            0
        } else {
            pre[n - 1].offset + pre[n - 1].length
        },
    ensures
        contiguous_upto(now, n + 1),
    decreases n,
{
    lemma_contiguous_agree(pre, now, n);
}

/// Tables agreeing on a prefix are contiguous together.
proof fn lemma_contiguous_agree(pre: Seq<FileInfo>, now: Seq<FileInfo>, n: int)
    requires
        forall|j: int| 0 <= j < n ==> #[trigger] now[j] == pre[j],
        contiguous_upto(pre, n),
    ensures
        contiguous_upto(now, n),
    decreases n,
{
    if n > 0 {
        lemma_contiguous_agree(pre, now, n - 1);
    }
}

/// The summed lengths of the first `n` files of a torrent's file table.
pub open spec fn len_sum(files: Seq<crate::torrent::FileInfo>, n: int) -> int
    decreases n,
{
    if n <= 0 {
        0
    } else {
        len_sum(files, n - 1) + files[n - 1].length
    }
}

/// Partial length sums only grow.
proof fn lemma_len_sum_mono(files: Seq<crate::torrent::FileInfo>, a: int, b: int)
    requires
        a <= b,
    ensures
        len_sum(files, a) <= len_sum(files, b),
    decreases b - a,
{
    if a < b {
        lemma_len_sum_mono(files, a, b - 1);
    }
}

/// Over a contiguous file table, the mapping triples of a range account
/// for exactly the bytes of the range that fall below the table's end.
proof fn lemma_range_sum_general(files: Seq<FileInfo>, off: int, size: int, n: int)
    requires
        contiguous_upto(files, n),
        0 <= n <= files.len(),
        off >= 0,
        size >= 0,
    ensures
        range_sum(range_upto(files, off, size, n)) == {
            let endn = if n == 0 {
                0
            } else {
                files[n - 1].offset + files[n - 1].length
            };
            (if off + size < endn {
                off + size
            } else {
                endn
            }) - (if off < endn {
                off
            } else {
                endn
            })
        },
    decreases n,
{
    if n > 0 {
        lemma_range_sum_general(files, off, size, n - 1);
        let f = files[n - 1];
        let fs = f.offset as int;
        let prev = range_upto(files, off, size, n - 1);
        if overlaps(f, off, size) {
            let start = if off > fs {
                off - fs
            } else {
                0int
            };
            let stop = if off + size - fs < f.length {
                off + size - fs
            } else {
                f.length as int
            };
            let e = (n - 1, start, stop - start);
            assert(range_upto(files, off, size, n) == prev + seq![e]);
            assert((prev + seq![e]).drop_last() =~= prev);
            assert((prev + seq![e]).last() == e);
        } else {
            assert(range_upto(files, off, size, n) =~= prev);
        }
    }
}

/// Over a contiguous file table, the mapping triples of a range that lies
/// within the table's extent account for every byte exactly once: their
/// byte counts sum to the size of the range.  A piece spanning a file
/// boundary is thus split without loss or duplication.
pub proof fn lemma_range_covers(files: Seq<FileInfo>, off: int, size: int, n: int)
    requires
        contiguous_upto(files, n),
        0 <= n <= files.len(),
        0 <= off,
        size >= 0,
        n > 0 ==> off + size <= files[n - 1].offset + files[n - 1].length,
        n == 0 ==> size == 0,
    ensures
        range_sum(range_upto(files, off, size, n)) == size,
{
    lemma_range_sum_general(files, off, size, n);
}

/// An empty triple list sums to zero.
proof fn lemma_range_sum_empty(entries: Seq<(int, int, int)>)
    requires
        entries.len() == 0,
    ensures
        range_sum(entries) == 0,
{
}

/// Files that end at or before the start of the range contribute nothing.
proof fn lemma_range_none_before(files: Seq<FileInfo>, off: int, size: int, n: int)
    requires
        contiguous_upto(files, n),
        n >= 0,
        n > 0 ==> files[n - 1].offset + files[n - 1].length <= off,
    ensures
        range_upto(files, off, size, n).len() == 0,
    decreases n,
{
    if n > 0 {
        assert(!overlaps(files[n - 1], off, size));
        lemma_range_none_before(files, off, size, n - 1);
    }
}

} // verus!
