//! The public facade: an `Operator` holds a layer chain applied to the
//! in-memory leaf backend and exposes path-oriented operations plus
//! chunked, range-bounded stream handles.
//!
//! Every capability a layer does not intercept is forwarded to the leaf with
//! identical arguments and its result returned unmodified, errors included:
//! the contracts of `stat`, `delete`, `list`, `create_dir`, `copy`, `rename`
//! and `presign` below are exactly the leaf backend's. Only the read and
//! write byte streams pass through the chain's transforms.

use vstd::prelude::*;

use crate::backend::EntryMode;
use crate::backend::ErrorKind;
use crate::backend::MemoryBackend;
use crate::backend::Metadata;
use crate::buffer::Buffer;
use crate::layer::Layer;
use crate::layer::read_transform;
use crate::layer::write_transform;
use crate::layer::apply_read_chain;
use crate::layer::apply_write_chain;
use crate::layer::lemma_chain_roundtrip;
use crate::layer::lemma_read_transform_concat;
use crate::layer::lemma_transform_len;

verus! {

/// The chunk size a reader uses when the caller does not pick one.
pub const DEFAULT_CHUNK: usize = 4096;

/// The chunk size actually used for a requested one; zero means
/// backend default.
pub open spec fn effective_chunk(chunk: usize) -> int {
    if chunk == 0 {
        DEFAULT_CHUNK as int
    } else {
        chunk as int
    }
}

/// The sub-range `[start, end)` a range request selects of a file of length
/// `len`: an unbounded or overlong end is clamped to the file's end, and a
/// start past the end selects the empty range there.
pub open spec fn clamp_start(len: int, start: usize, end: Option<usize>) -> int {
    if start <= clamp_end(len, end) {
        start as int
    } else {
        clamp_end(len, end)
    }
}

pub open spec fn clamp_end(len: int, end: Option<usize>) -> int {
    match end {
        Some(e) => if e <= len {
            e as int
        } else {
            len
        },
        None => len,
    }
}

proof fn lemma_subrange_split(s: Seq<u8>, a: int, b: int, c: int)
    requires
        0 <= a <= b <= c <= s.len(),
    ensures
        s.subrange(a, b) + s.subrange(b, c) == s.subrange(a, c),
{
    let lhs = s.subrange(a, b) + s.subrange(b, c);
    let rhs = s.subrange(a, c);
    assert forall|i: int| 0 <= i < rhs.len() implies lhs[i] == rhs[i] by {
        if i < b - a {
            assert(lhs[i] == s.subrange(a, b)[i]);
        } else {
            assert(lhs[i] == s.subrange(b, c)[i - (b - a)]);
        }
    }
    assert(lhs =~= rhs);
}

fn clone_chain(v: &Vec<Layer>) -> (r: Vec<Layer>)
    ensures
        r@ == v@,
{
    let mut out: Vec<Layer> = Vec::new();
    let mut i: usize = 0;
    while i < v.len()
        invariant
            i <= v@.len(),
            out@ == v@.subrange(0, i as int),
        decreases v@.len() - i,
    {
        out.push(v[i]);
        i = i + 1;
        proof {
            assert(out@ =~= v@.subrange(0, i as int));
        }
    }
    proof {
        assert(out@ =~= v@);
    }
    out
}

/// The facade over a composite backend: a caller-ordered layer chain applied
/// to the in-memory leaf. Index 0 of the chain is the outermost layer.
pub struct Operator {
    chain: Vec<Layer>,
    inner: MemoryBackend,
}

/// A per-call read handle, bound to one path and range. It holds the raw
/// stored bytes of its range and decodes them through the chain chunk by
/// chunk; because every transform is position-independent, the chunking
/// cannot change what the caller sees.
pub struct Reader {
    raw: Buffer,
    pos: usize,
    chunk: usize,
    chain: Vec<Layer>,
}

/// A per-call write handle. Each `write` encodes its chunk through the chain
/// and buffers the encoded bytes; `close` hands them to the leaf in one
/// piece, `abort` discards them.
pub struct Writer {
    path: String,
    append: bool,
    buf: Vec<u8>,
    chain: Vec<Layer>,
}

impl Operator {
    pub closed spec fn wf(&self) -> bool {
        self.inner.wf()
    }

    /// The chain, outermost layer first.
    pub closed spec fn layers(&self) -> Seq<Layer> {
        self.chain@
    }

    /// The raw bytes the leaf backend stores, by path.
    pub closed spec fn files(&self) -> Map<Seq<char>, Seq<u8>> {
        self.inner.files()
    }

    pub closed spec fn dirs(&self) -> Set<Seq<char>> {
        self.inner.dirs()
    }

    /// Wraps a leaf backend with an empty chain.
    pub fn new(inner: MemoryBackend) -> (r: Operator)
        requires
            inner.wf(),
        ensures
            r.wf(),
            r.layers() == Seq::<Layer>::empty(),
            r.files() == inner.files(),
            r.dirs() == inner.dirs(),
    {
        Operator { chain: Vec::new(), inner }
    }

    /// Applies one more layer to the composite backend. The layer added last
    /// becomes the outermost one, the first to see writes and the last to see
    /// reads.
    pub fn layer(self, l: Layer) -> (r: Operator)
        ensures
            r.wf() == self.wf(),
            r.layers() == self.layers().insert(0, l),
            r.files() == self.files(),
            r.dirs() == self.dirs(),
    {
        let mut chain = self.chain;
        chain.insert(0, l);
        Operator { chain, inner: self.inner }
    }

    /// The leaf backend itself, for callers that must bypass the chain.
    pub fn inner(&self) -> (r: &MemoryBackend)
        ensures
            r.files() == self.files(),
            r.dirs() == self.dirs(),
            r.wf() == self.wf(),
    {
        &self.inner
    }

    /// A write handle bound to `path`. Nothing reaches the backend until the
    /// handle is closed.
    pub fn writer_with(&self, path: &str, append: bool) -> (w: Writer)
        ensures
            w.path() == path@,
            w.append() == append,
            w.buf() == Seq::<u8>::empty(),
            w.layers() == self.layers(),
    {
        Writer {
            path: path.to_owned(),
            append,
            buf: Vec::new(),
            chain: clone_chain(&self.chain),
        }
    }

    /// A read handle bound to `path` and to the selected sub-range of the
    /// file there; `NotFound` exactly when no file is stored at `path`.
    /// A `chunk` of zero asks for the backend default.
    pub fn reader_with(&self, path: &str, start: usize, end: Option<usize>, chunk: usize) -> (r:
        Result<Reader, ErrorKind>)
        requires
            self.wf(),
        ensures
            match r {
                Ok(rd) => self.files().contains_key(path@) && rd.wf() && rd.layers()
                    == self.layers() && rd.pos() == 0 && rd.chunk_size() == effective_chunk(chunk)
                    && rd.raw() == self.files()[path@].subrange(
                    clamp_start(self.files()[path@].len() as int, start, end),
                    clamp_end(self.files()[path@].len() as int, end),
                ),
                Err(k) => k == ErrorKind::NotFound && !self.files().contains_key(path@),
            },
    {
        let data = match self.inner.read(path) {
            Ok(b) => b,
            Err(k) => {
                return Err(k);
            },
        };
        let len = data.len();
        let e = match end {
            Some(e) => if e <= len {
                e
            } else {
                len
            },
            None => len,
        };
        let s = if start <= e {
            start
        } else {
            e
        };
        let raw = data.slice(s, e);
        let ch = if chunk == 0 {
            DEFAULT_CHUNK
        } else {
            chunk
        };
        Ok(Reader { raw, pos: 0, chunk: ch, chain: clone_chain(&self.chain) })
    }

    /// Stores `data` at `path`, replacing whatever was there. The chain's
    /// write transform runs over the bytes on their way down; this is the
    /// handle-based path with default configuration, not a second code path.
    pub fn write(&mut self, path: &str, data: &Buffer)
        requires
            old(self).wf(),
        ensures
            final(self).wf(),
            final(self).layers() == old(self).layers(),
            final(self).dirs() == old(self).dirs(),
            final(self).files() == old(self).files().insert(
                path@,
                write_transform(old(self).layers(), data@),
            ),
    {
        let mut w = self.writer_with(path, false);
        w.write(data);
        proof {
            assert(Seq::<u8>::empty() + write_transform(old(self).layers(), data@)
                =~= write_transform(old(self).layers(), data@));
        }
        let _ = w.close(self);
    }

    /// Extends the file at `path` with `data` (an absent file counts as
    /// empty). Only the new bytes run through the chain's write transform;
    /// the stored prefix stays as it is.
    pub fn write_append(&mut self, path: &str, data: &Buffer)
        requires
            old(self).wf(),
        ensures
            final(self).wf(),
            final(self).layers() == old(self).layers(),
            final(self).dirs() == old(self).dirs(),
            final(self).files() == old(self).files().insert(
                path@,
                (if old(self).files().contains_key(path@) {
                    old(self).files()[path@]
                } else {
                    Seq::<u8>::empty()
                }) + write_transform(old(self).layers(), data@),
            ),
    {
        let mut w = self.writer_with(path, true);
        w.write(data);
        proof {
            assert(Seq::<u8>::empty() + write_transform(old(self).layers(), data@)
                =~= write_transform(old(self).layers(), data@));
        }
        let _ = w.close(self);
    }

    /// The logical contents at `path`: the stored bytes, run up through the
    /// chain's read transform. Defined purely in terms of one whole-range
    /// handle read with default configuration. `NotFound` exactly when no
    /// file is stored at `path`.
    pub fn read(&self, path: &str) -> (r: Result<Buffer, ErrorKind>)
        requires
            self.wf(),
        ensures
            match r {
                Ok(b) => self.files().contains_key(path@) && b@ == read_transform(
                    self.layers(),
                    self.files()[path@],
                ),
                Err(k) => k == ErrorKind::NotFound && !self.files().contains_key(path@),
            },
    {
        match self.reader_with(path, 0, None, 0) {
            Ok(mut rd) => {
                let b = rd.read_remaining();
                proof {
                    let stored = self.files()[path@];
                    assert(stored.subrange(0, stored.len() as int) =~= stored);
                    assert(rd.raw().subrange(0, rd.raw().len() as int) =~= rd.raw());
                }
                Ok(b)
            },
            Err(k) => Err(k),
        }
    }

    /// A chunked range read of the whole file, issued as independent
    /// sub-range reads reassembled in range order — the sequential model of a
    /// concurrent chunked read. Neither the chunk size nor the concurrency
    /// limit appears in the result: it is byte-for-byte what `read` returns.
    pub fn read_concurrent(&self, path: &str, chunk: usize, concurrency: usize) -> (r: Result<
        Buffer,
        ErrorKind,
    >)
        requires
            self.wf(),
        ensures
            match r {
                Ok(b) => self.files().contains_key(path@) && b@ == read_transform(
                    self.layers(),
                    self.files()[path@],
                ),
                Err(k) => k == ErrorKind::NotFound && !self.files().contains_key(path@),
            },
    {
        let _: usize = concurrency;
        let m = match self.inner.stat(path) {
            Ok(m) => m,
            Err(k) => {
                return Err(k);
            },
        };
        if !self.files_contains(path) {
            return Err(ErrorKind::NotFound);
        }
        let n = m.content_length;
        let ghost stored = self.files()[path@];
        proof {
            assert(n as int == stored.len());
        }
        let ch = if chunk == 0 {
            DEFAULT_CHUNK
        } else {
            chunk
        };
        let mut acc = Buffer::new();
        let mut pos: usize = 0;
        proof {
            assert(stored.subrange(0, 0) =~= Seq::<u8>::empty());
            lemma_transform_len(self.layers(), stored.subrange(0, 0));
            assert(acc@ =~= read_transform(self.layers(), stored.subrange(0, 0)));
        }
        while pos < n
            invariant
                self.wf(),
                self.files().contains_key(path@),
                stored == self.files()[path@],
                n as int == stored.len(),
                ch >= 1,
                pos <= n,
                acc@ == read_transform(self.layers(), stored.subrange(0, pos as int)),
            decreases n - pos,
        {
            let ghost p0 = pos as int;
            let e = if ch >= n - pos {
                n
            } else {
                pos + ch
            };
            let part = match self.reader_with(path, pos, Some(e), 0) {
                Ok(mut rd) => {
                    let b = rd.read_remaining();
                    proof {
                        assert(clamp_end(stored.len() as int, Some(e)) == e as int);
                        assert(clamp_start(stored.len() as int, pos, Some(e)) == p0);
                        assert(rd.raw().subrange(0, rd.raw().len() as int) =~= rd.raw());
                    }
                    b
                },
                Err(_) => {
                    proof {
                        assert(false);
                    }
                    Buffer::new()
                },
            };
            acc = acc.concat(&part);
            pos = e;
            proof {
                lemma_read_transform_concat(
                    self.layers(),
                    stored.subrange(0, p0),
                    stored.subrange(p0, pos as int),
                );
                lemma_subrange_split(stored, 0, p0, pos as int);
            }
        }
        proof {
            assert(stored.subrange(0, n as int) =~= stored);
        }
        Ok(acc)
    }

    /// Whether a file is stored at `path`.
    pub fn files_contains(&self, path: &str) -> (r: bool)
        requires
            self.wf(),
        ensures
            r == self.files().contains_key(path@),
    {
        self.inner.read(path).is_ok()
    }

    /// Pure passthrough: identical to `stat` on the leaf backend. Because no
    /// transform changes a file's length, the reported length of a file is
    /// also the length of its logical contents.
    pub fn stat(&self, path: &str) -> (r: Result<Metadata, ErrorKind>)
        requires
            self.wf(),
        ensures
            match r {
                Ok(m) => if self.files().contains_key(path@) {
                    m.mode == EntryMode::File && m.content_length == self.files()[path@].len()
                        && m.content_length == read_transform(
                        self.layers(),
                        self.files()[path@],
                    ).len()
                } else {
                    self.dirs().contains(path@) && m.mode == EntryMode::Dir && m.content_length
                        == 0
                },
                Err(k) => k == ErrorKind::NotFound && !self.files().contains_key(path@)
                    && !self.dirs().contains(path@),
            },
    {
        proof {
            if self.files().contains_key(path@) {
                lemma_transform_len(self.layers(), self.files()[path@]);
            }
        }
        self.inner.stat(path)
    }

    /// Pure passthrough: identical to `delete` on the leaf backend.
    pub fn delete(&mut self, path: &str)
        requires
            old(self).wf(),
        ensures
            final(self).wf(),
            final(self).layers() == old(self).layers(),
            final(self).files() == old(self).files().remove(path@),
            final(self).dirs() == old(self).dirs().remove(path@),
    {
        self.inner.delete(path)
    }

    /// Pure passthrough: identical to `list` on the leaf backend.
    pub fn list(&self) -> (r: Vec<String>)
        requires
            self.wf(),
        ensures
            forall|i: int| 0 <= i < r@.len() ==> self.files().contains_key(#[trigger] r@[i]@),
            forall|i: int, j: int|
                #![trigger r@[i]@, r@[j]@]
                0 <= i < j < r@.len() ==> r@[i]@ != r@[j]@,
            forall|k: Seq<char>|
                #[trigger] self.files().contains_key(k) ==> exists|i: int|
                    0 <= i < r@.len() && r@[i]@ == k,
    {
        self.inner.list()
    }

    /// Pure passthrough: identical to `create_dir` on the leaf backend.
    pub fn create_dir(&mut self, path: &str)
        requires
            old(self).wf(),
        ensures
            final(self).wf(),
            final(self).layers() == old(self).layers(),
            final(self).files() == old(self).files(),
            final(self).dirs() == old(self).dirs().insert(path@),
    {
        self.inner.create_dir(path)
    }

    /// Pure passthrough: identical to `copy` on the leaf backend. The raw
    /// stored bytes are duplicated, so the logical contents are too.
    pub fn copy(&mut self, from: &str, to: &str) -> (r: Result<(), ErrorKind>)
        requires
            old(self).wf(),
        ensures
            final(self).wf(),
            final(self).layers() == old(self).layers(),
            final(self).dirs() == old(self).dirs(),
            match r {
                Ok(()) => old(self).files().contains_key(from@) && final(self).files() == old(
                    self,
                ).files().insert(to@, old(self).files()[from@]),
                Err(k) => k == ErrorKind::NotFound && !old(self).files().contains_key(from@)
                    && final(self).files() == old(self).files(),
            },
    {
        self.inner.copy(from, to)
    }

    /// Pure passthrough: identical to `rename` on the leaf backend.
    pub fn rename(&mut self, from: &str, to: &str) -> (r: Result<(), ErrorKind>)
        requires
            old(self).wf(),
        ensures
            final(self).wf(),
            final(self).layers() == old(self).layers(),
            final(self).dirs() == old(self).dirs(),
            match r {
                Ok(()) => old(self).files().contains_key(from@) && final(self).files() == old(
                    self,
                ).files().remove(from@).insert(to@, old(self).files()[from@]),
                Err(k) => k == ErrorKind::NotFound && !old(self).files().contains_key(from@)
                    && final(self).files() == old(self).files(),
            },
    {
        self.inner.rename(from, to)
    }

    /// Pure passthrough: identical to `presign` on the leaf backend, which
    /// does not support the capability.
    pub fn presign(&self, path: &str) -> (r: Result<String, ErrorKind>)
        ensures
            match r {
                Ok(_) => false,
                Err(k) => k == ErrorKind::Unsupported,
            },
    {
        self.inner.presign(path)
    }

    /// The blocking read variant. No layer of this chain intercepts it — the
    /// cipher layer transforms only the non-blocking streams, and that
    /// asymmetry is preserved, not unified — so it yields the raw stored
    /// bytes, ciphertext included.
    pub fn blocking_read(&self, path: &str) -> (r: Result<Buffer, ErrorKind>)
        requires
            self.wf(),
        ensures
            match r {
                Ok(b) => self.files().contains_key(path@) && b@ == self.files()[path@],
                Err(k) => k == ErrorKind::NotFound && !self.files().contains_key(path@),
            },
    {
        self.inner.read(path)
    }

    /// The blocking write variant: forwarded through every layer untouched,
    /// so the bytes are stored exactly as given.
    pub fn blocking_write(&mut self, path: &str, data: &Buffer)
        requires
            old(self).wf(),
        ensures
            final(self).wf(),
            final(self).layers() == old(self).layers(),
            final(self).dirs() == old(self).dirs(),
            final(self).files() == old(self).files().insert(path@, data@),
    {
        self.inner.write(path, false, data)
    }
}

impl Reader {
    pub closed spec fn wf(&self) -> bool {
        self.pos <= self.raw@.len() && self.chunk >= 1
    }

    /// The raw stored bytes of this handle's range.
    pub closed spec fn raw(&self) -> Seq<u8> {
        self.raw@
    }

    /// How far into the range the handle has read.
    pub closed spec fn pos(&self) -> int {
        self.pos as int
    }

    pub closed spec fn chunk_size(&self) -> int {
        self.chunk as int
    }

    pub closed spec fn layers(&self) -> Seq<Layer> {
        self.chain@
    }

    /// One chunk: the next sub-range of raw bytes, decoded through the chain.
    /// `None` exactly when the range is exhausted.
    pub fn read_next(&mut self) -> (r: Option<Buffer>)
        requires
            old(self).wf(),
        ensures
            final(self).wf(),
            final(self).raw() == old(self).raw(),
            final(self).chunk_size() == old(self).chunk_size(),
            final(self).layers() == old(self).layers(),
            match r {
                Some(b) => old(self).pos() < old(self).raw().len() && {
                    let e = if old(self).pos() + old(self).chunk_size() <= old(self).raw().len() {
                        old(self).pos() + old(self).chunk_size()
                    } else {
                        old(self).raw().len() as int
                    };
                    b@ == read_transform(old(self).layers(), old(self).raw().subrange(
                        old(self).pos(),
                        e,
                    )) && final(self).pos() == e
                },
                None => old(self).pos() == old(self).raw().len() && final(self).pos() == old(
                    self,
                ).pos(),
            },
    {
        let len = self.raw.len();
        if self.pos >= len {
            return None;
        }
        let e = if self.chunk >= len - self.pos {
            len
        } else {
            self.pos + self.chunk
        };
        let part = self.raw.slice(self.pos, e);
        let decoded = apply_read_chain(&self.chain, part);
        self.pos = e;
        Some(decoded)
    }

    /// Reads chunk after chunk to the end of the range and concatenates in
    /// order: by chunk invariance this equals decoding the remaining raw
    /// bytes in one piece.
    pub fn read_remaining(&mut self) -> (r: Buffer)
        requires
            old(self).wf(),
        ensures
            final(self).wf(),
            final(self).raw() == old(self).raw(),
            final(self).chunk_size() == old(self).chunk_size(),
            final(self).layers() == old(self).layers(),
            final(self).pos() == old(self).raw().len(),
            r@ == read_transform(old(self).layers(), old(self).raw().subrange(
                old(self).pos(),
                old(self).raw().len() as int,
            )),
    {
        let ghost raw0 = self.raw@;
        let ghost c0 = self.chain@;
        let ghost p0 = self.pos as int;
        let ghost ch0 = self.chunk;
        let mut acc = Buffer::new();
        proof {
            assert(raw0.subrange(p0, p0) =~= Seq::<u8>::empty());
            lemma_transform_len(c0, raw0.subrange(p0, p0));
            assert(acc@ =~= read_transform(c0, raw0.subrange(p0, p0)));
        }
        while self.pos < self.raw.len()
            invariant
                self.wf(),
                self.raw@ == raw0,
                self.chain@ == c0,
                self.chunk == ch0,
                0 <= p0 <= self.pos as int <= raw0.len(),
                acc@ == read_transform(c0, raw0.subrange(p0, self.pos as int)),
            decreases raw0.len() - self.pos,
        {
            let ghost mid = self.pos as int;
            match self.read_next() {
                Some(b) => {
                    acc = acc.concat(&b);
                    proof {
                        assert(0 <= p0);
                        assert(p0 <= mid);
                        assert(mid <= self.pos as int);
                        assert(self.pos as int <= raw0.len());
                        lemma_read_transform_concat(
                            c0,
                            raw0.subrange(p0, mid),
                            raw0.subrange(mid, self.pos as int),
                        );
                        lemma_subrange_split(raw0, p0, mid, self.pos as int);
                    }
                },
                None => {
                    proof {
                        assert(false);
                    }
                },
            }
        }
        acc
    }
}

impl Writer {
    /// The path the handle is bound to.
    pub closed spec fn path(&self) -> Seq<char> {
        self.path@
    }

    /// Whether closing will extend the file instead of replacing it.
    pub closed spec fn append(&self) -> bool {
        self.append
    }

    /// The encoded bytes buffered so far.
    pub closed spec fn buf(&self) -> Seq<u8> {
        self.buf@
    }

    pub closed spec fn layers(&self) -> Seq<Layer> {
        self.chain@
    }

    /// Buffers one chunk: the bytes run down the chain's write transform and
    /// the encoded result is appended to the pending buffer.
    pub fn write(&mut self, data: &Buffer)
        ensures
            final(self).path() == old(self).path(),
            final(self).append() == old(self).append(),
            final(self).layers() == old(self).layers(),
            final(self).buf() == old(self).buf() + write_transform(old(self).layers(), data@),
    {
        let encoded = apply_write_chain(&self.chain, Buffer::from_vec(data.to_vec()));
        let mut ev = encoded.to_vec();
        self.buf.append(&mut ev);
    }

    /// Discards everything buffered and pending; nothing reaches the backend.
    /// Abandoning a handle without closing it is equivalent to this.
    pub fn abort(&mut self)
        ensures
            final(self).path() == old(self).path(),
            final(self).append() == old(self).append(),
            final(self).layers() == old(self).layers(),
            final(self).buf() == Seq::<u8>::empty(),
    {
        self.buf.clear();
    }

    /// Finalizes the write: hands the buffered encoded bytes to the leaf (one
    /// replace, or one append to whatever is stored) and returns the metadata
    /// of the finished file. Consumes the handle.
    pub fn close(self, op: &mut Operator) -> (r: Result<Metadata, ErrorKind>)
        requires
            old(op).wf(),
        ensures
            final(op).wf(),
            final(op).layers() == old(op).layers(),
            final(op).dirs() == old(op).dirs(),
            final(op).files() == (if self.append() && old(op).files().contains_key(self.path()) {
                old(op).files().insert(self.path(), old(op).files()[self.path()] + self.buf())
            } else {
                old(op).files().insert(self.path(), self.buf())
            }),
            match r {
                Ok(m) => m.mode == EntryMode::File && m.content_length == final(op).files()[
                    self.path()].len(),
                Err(_) => false,
            },
    {
        let Writer { path, append, buf, chain: _ } = self;
        op.inner.write(path.as_str(), append, &Buffer::from_vec(buf));
        match op.inner.stat(path.as_str()) {
            Ok(m) => Ok(m),
            Err(k) => {
                proof {
                    assert(false);
                }
                Err(k)
            },
        }
    }
}

/// Round trip: for every chain, every path and every byte sequence, writing
/// through the chain stores bytes whose read transform is exactly what was
/// written — reading after writing yields the original data.
pub proof fn lemma_write_read_roundtrip(
    layers: Seq<Layer>,
    files: Map<Seq<char>, Seq<u8>>,
    p: Seq<char>,
    d: Seq<u8>,
)
    ensures
        ({
            let stored = files.insert(p, write_transform(layers, d));
            stored.contains_key(p) && read_transform(layers, stored[p]) == d
        }),
{
    lemma_chain_roundtrip(layers, d);
}

/// Appending after writing: for every chain, path and pair of byte
/// sequences, a write of `d1` followed by an append of `d2` stores bytes
/// whose read transform is the concatenation `d1 + d2`.
pub proof fn lemma_write_append_read_roundtrip(
    layers: Seq<Layer>,
    files: Map<Seq<char>, Seq<u8>>,
    p: Seq<char>,
    d1: Seq<u8>,
    d2: Seq<u8>,
)
    ensures
        ({
            let after_write = files.insert(p, write_transform(layers, d1));
            let after_append = after_write.insert(
                p,
                after_write[p] + write_transform(layers, d2),
            );
            after_append.contains_key(p) && read_transform(layers, after_append[p]) == d1 + d2
        }),
{
    lemma_read_transform_concat(layers, write_transform(layers, d1), write_transform(layers, d2));
    lemma_chain_roundtrip(layers, d1);
    lemma_chain_roundtrip(layers, d2);
}

} // verus!
