//! The freezer: configuration, opening with recovery, append, retrieve,
//! truncate and close, over a directory held as plain bytes.
use vstd::prelude::*;
use crate::bytes::{append_bytes, copy_range, view_opt};
use crate::codec::{
    compressible, snappy_compress, snappy_compressed, snappy_decompress, snappy_decompressed,
};
use crate::cache::FileCache;
use crate::index::{entry_end, entry_file, IndexEntry};
use crate::layout::{
    consistent, entry_count, files_after_truncate, files_after_write, lemma_append, lemma_truncate,
    lookup, record_start, records,
};
use crate::recovery::{
    lemma_repair_empty_index, lemma_repair_keeps_consistent, recover, repaired_files,
    repaired_index, view_files,
};

verus! {

/// Largest end offset an index entry can hold, and so the largest data file.
pub const MAX_FILE_SIZE_LIMIT: u32 = 65535;

/// Data-file cap used when none is configured.
pub const DEFAULT_MAX_FILE_SIZE: u32 = 65535;

/// Number of sealed data files kept open when none is configured.
pub const DEFAULT_OPEN_FILES_LIMIT: usize = 64;

#[derive(Clone, Copy, Debug, PartialEq, Eq, Structural)]
pub enum FreezerError {
    /// `append` was given a record number other than the next one.
    OutOfOrder,
    /// The record does not fit the index format: its end offset would pass
    /// 65535, or no file number is left for a new data file.
    TooLarge,
    /// The configured data-file cap is larger than the index format allows.
    InvalidConfig,
    /// Recovery could not bring the index and the data files to agreement.
    CorruptIndex,
    /// The freezer is not open.
    Closed,
    /// A stored record is not a valid compressed block.
    DecompressFailed,
}

/// The contents of a freezer's directory: the index file and the data files
/// `0, 1, 2, ...` in order.
pub struct Volume {
    pub index: Vec<u8>,
    pub data: Vec<Vec<u8>>,
}

impl Volume {
    /// An empty directory.
    pub fn new() -> (r: Volume)
        ensures
            r.index@.len() == 0,
            r.data@.len() == 0,
    {
        Volume { index: Vec::new(), data: Vec::new() }
    }

    pub open spec fn files(&self) -> Seq<Seq<u8>> {
        view_files(self.data@)
    }
}

/// The writable data file that appends go to.
pub struct Head {
    pub file: Vec<u8>,
    pub file_id: u32,
    pub bytes: u64,
}

pub struct FreezerFilesBuilder {
    pub volume: Volume,
    pub max_file_size: u32,
    pub open_files_limit: usize,
    pub enable_compression: bool,
}

impl FreezerFilesBuilder {
    /// A builder over `volume` with the default settings.
    pub fn new(volume: Volume) -> (r: FreezerFilesBuilder)
        ensures
            r.volume == volume,
            r.max_file_size == DEFAULT_MAX_FILE_SIZE,
            r.open_files_limit == DEFAULT_OPEN_FILES_LIMIT,
            r.enable_compression,
    {
        FreezerFilesBuilder {
            volume,
            max_file_size: DEFAULT_MAX_FILE_SIZE,
            open_files_limit: DEFAULT_OPEN_FILES_LIMIT,
            enable_compression: true,
        }
    }

    pub fn max_file_size(self, size: u32) -> (r: FreezerFilesBuilder)
        ensures
            r == (FreezerFilesBuilder { max_file_size: size, ..self }),
    {
        FreezerFilesBuilder { max_file_size: size, ..self }
    }

    pub fn open_files_limit(self, limit: usize) -> (r: FreezerFilesBuilder)
        ensures
            r == (FreezerFilesBuilder { open_files_limit: limit, ..self }),
    {
        FreezerFilesBuilder { open_files_limit: limit, ..self }
    }

    /// Records the compression setting. Payloads are stored as given.
    pub fn enable_compression(self, enable: bool) -> (r: FreezerFilesBuilder)
        ensures
            r == (FreezerFilesBuilder { enable_compression: enable, ..self }),
    {
        FreezerFilesBuilder { enable_compression: enable, ..self }
    }

    /// An unopened freezer over the volume; fails when the data-file cap
    /// exceeds what an index entry can address.
    pub fn build(self) -> (r: Result<FreezerFiles, FreezerError>)
        ensures
            r is Ok <==> self.max_file_size <= MAX_FILE_SIZE_LIMIT,
            r is Err ==> r == Err::<FreezerFiles, FreezerError>(FreezerError::InvalidConfig),
            r matches Ok(f) ==> f.wf() && !f.opened && f.index@ == self.volume.index@ && f.files()
                == self.volume.files() && f.max_file_size == self.max_file_size
                && f.enable_compression == self.enable_compression && f.files.capacity
                == self.open_files_limit,
    {
        if self.max_file_size > MAX_FILE_SIZE_LIMIT {
            return Err(FreezerError::InvalidConfig);
        }
        let Volume { index, data } = self.volume;
        Ok(
            FreezerFiles {
                index,
                sealed: data,
                head: Head { file: Vec::new(), file_id: 0, bytes: 0 },
                number: 0,
                max_file_size: self.max_file_size,
                enable_compression: self.enable_compression,
                files: FileCache::new(self.open_files_limit),
                opened: false,
            },
        )
    }
}

/// A freezer. Until it is opened all data files sit in `sealed`; once open,
/// `sealed` holds the files before the head and `head` the last one.
pub struct FreezerFiles {
    pub index: Vec<u8>,
    pub sealed: Vec<Vec<u8>>,
    pub head: Head,
    pub number: u64,
    pub max_file_size: u32,
    pub enable_compression: bool,
    pub files: FileCache,
    pub opened: bool,
}

/// A retrieval result with its buffer viewed as bytes.
pub open spec fn view_result(r: Result<Option<Vec<u8>>, FreezerError>) -> Result<Option<Seq<u8>>, FreezerError> {
    match r {
        Ok(v) => Ok(view_opt(v)),
        Err(e) => Err(e),
    }
}

/// The result of a retrieval once the decoder has given `decoded`.
pub fn decoded_record(decoded: Option<Vec<u8>>) -> (r: Result<Option<Vec<u8>>, FreezerError>)
    ensures
        view_result(r) == match view_opt(decoded) {
            Some(p) => Ok::<Option<Seq<u8>>, FreezerError>(Some(p)),
            None => Err(FreezerError::DecompressFailed),
        },
{
    match decoded {
        Some(p) => Ok(Some(p)),
        None => Err(FreezerError::DecompressFailed),
    }
}

impl FreezerFiles {
    /// All data files, in order.
    pub open spec fn files(&self) -> Seq<Seq<u8>> {
        if self.opened {
            view_files(self.sealed@).push(self.head.file@)
        } else {
            view_files(self.sealed@)
        }
    }

    /// The stored records `1 .. number`.
    pub open spec fn view_records(&self) -> Seq<Seq<u8>> {
        records(self.index@, self.files())
    }

    /// The stored bytes of record `n`, as `retrieve_raw(n)` returns them on
    /// an open freezer.
    pub open spec fn lookup(&self, n: int) -> Option<Seq<u8>> {
        lookup(self.index@, self.files(), n)
    }

    /// Number of data files held open: the cached sealed files and the head.
    pub open spec fn open_handles(&self) -> nat {
        self.files.open_count() + if self.opened { 1nat } else { 0nat }
    }

    /// The freezer's invariant: a well-formed cache, a cap that entries can
    /// address, and, once open, a consistent directory whose head, record
    /// count and cached file numbers agree with the index.
    pub open spec fn wf(&self) -> bool {
        &&& self.files.wf()
        &&& self.max_file_size <= MAX_FILE_SIZE_LIMIT
        &&& self.opened ==> {
            &&& consistent(self.index@, self.files())
            &&& self.sealed@.len() == self.head.file_id
            &&& self.head.bytes == self.head.file@.len()
            &&& self.number == entry_count(self.index@)
            &&& forall|x: u32| self.files.order@.contains(x) ==> x < self.head.file_id
        }
    }

    /// Whether appending `len` more bytes moves to a new data file.
    pub open spec fn rolls(&self, len: nat) -> bool {
        self.head.bytes + len > self.max_file_size
    }

    /// The bytes stored for `payload`: its compressed form when compression
    /// is on, `None` when the encoder does not take it.
    pub open spec fn stored_form(&self, payload: Seq<u8>) -> Option<Seq<u8>> {
        if !self.enable_compression {
            Some(payload)
        } else if compressible(payload.len()) {
            Some(snappy_compressed(payload))
        } else {
            None
        }
    }

    /// The outcome `append(n, payload)` owes.
    pub open spec fn append_result(&self, n: u64, payload: Seq<u8>) -> Result<(), FreezerError> {
        if !self.opened {
            Err(FreezerError::Closed)
        } else if n != self.number {
            Err(FreezerError::OutOfOrder)
        } else {
            match self.stored_form(payload) {
                Some(s) => self.append_raw_result(n, s.len()),
                None => Err(FreezerError::TooLarge),
            }
        }
    }

    /// What a retrieval yields for the stored bytes `stored` of a record.
    pub open spec fn decoded(&self, stored: Option<Seq<u8>>) -> Result<Option<Seq<u8>>, FreezerError> {
        match stored {
            None => Ok(None),
            Some(s) => if !self.enable_compression {
                Ok(Some(s))
            } else {
                match snappy_decompressed(s) {
                    Some(p) => Ok(Some(p)),
                    None => Err(FreezerError::DecompressFailed),
                }
            },
        }
    }

    /// The outcome `append_raw(n, stored)` owes, for `len` stored bytes.
    pub open spec fn append_raw_result(&self, n: u64, len: nat) -> Result<(), FreezerError> {
        if !self.opened {
            Err(FreezerError::Closed)
        } else if n != self.number {
            Err(FreezerError::OutOfOrder)
        } else if self.rolls(len) && (len > MAX_FILE_SIZE_LIMIT || self.head.file_id == u32::MAX) {
            Err(FreezerError::TooLarge)
        } else {
            Ok(())
        }
    }

    /// Opens the freezer: gathers its data files and runs recovery.
    pub fn preopen(&mut self) -> (r: Result<(), FreezerError>)
        requires
            old(self).wf(),
        ensures
            final(self).wf(),
            final(self).max_file_size == old(self).max_file_size,
            final(self).enable_compression == old(self).enable_compression,
            final(self).files.capacity == old(self).files.capacity,
            r is Ok <==> final(self).opened,
            final(self).index@ == repaired_index(old(self).index@, old(self).files()),
            final(self).files() == repaired_files(old(self).index@, old(self).files()),
            r is Ok <==> consistent(final(self).index@, final(self).files()),
            r is Err ==> r == Err::<(), FreezerError>(FreezerError::CorruptIndex),
            consistent(old(self).index@, old(self).files()) ==> r is Ok && final(self).index@ == old(
                self,
            ).index@ && final(self).files() == old(self).files(),
            old(self).index@.len() < 6 ==> r is Ok && final(self).view_records() == Seq::<Seq<u8>>::empty(),
    {
        let mut data: Vec<Vec<u8>> = Vec::new();
        std::mem::swap(&mut data, &mut self.sealed);
        if self.opened {
            let mut head: Vec<u8> = Vec::new();
            std::mem::swap(&mut head, &mut self.head.file);
            data.push(head);
        }
        assert(view_files(data@) =~= old(self).files());
        proof {
            if consistent(old(self).index@, old(self).files()) {
                lemma_repair_keeps_consistent(old(self).index@, old(self).files());
            }
            if old(self).index@.len() < 6 {
                lemma_repair_empty_index(old(self).index@, old(self).files());
            }
        }
        let capacity = self.files.capacity;
        self.files = FileCache::new(capacity);
        self.opened = false;
        let ok = recover(&mut self.index, &mut data);
        if !ok {
            self.sealed = data;
            self.head = Head { file: Vec::new(), file_id: 0, bytes: 0 };
            return Err(FreezerError::CorruptIndex);
        }
        let ghost all = view_files(data@);
        let head = data.pop().unwrap();
        let file_id = data.len() as u32;
        let bytes = head.len() as u64;
        self.sealed = data;
        self.head = Head { file: head, file_id, bytes };
        self.number = (self.index.len() / 6) as u64;
        self.opened = true;
        assert(self.files() =~= all);
        assert(old(self).index@.len() < 6 ==> self.view_records() =~= Seq::<Seq<u8>>::empty());
        Ok(())
    }

    /// Appends record `n`, which must be the next record number, compressing
    /// the payload first when compression is on.
    pub fn append(&mut self, n: u64, payload: &Vec<u8>) -> (r: Result<(), FreezerError>)
        requires
            old(self).wf(),
        ensures
            final(self).wf(),
            final(self).opened == old(self).opened,
            final(self).max_file_size == old(self).max_file_size,
            final(self).enable_compression == old(self).enable_compression,
            final(self).files == old(self).files,
            r == old(self).append_result(n, payload@),
            r is Err ==> final(self).index@ == old(self).index@ && final(self).files() == old(
                self,
            ).files() && final(self).number == old(self).number,
            r is Ok ==> final(self).view_records() == old(self).view_records().push(
                old(self).stored_form(payload@).unwrap(),
            ) && final(self).number == old(self).number + 1,
            r is Ok ==> entry_end(final(self).index@, n as int) <= final(self).max_file_size
                || record_start(final(self).index@, n as int) == 0,
    {
        if !self.opened {
            return Err(FreezerError::Closed);
        }
        if n != self.number {
            return Err(FreezerError::OutOfOrder);
        }
        if self.enable_compression {
            match snappy_compress(payload) {
                Some(stored) => self.append_raw(n, &stored),
                None => Err(FreezerError::TooLarge),
            }
        } else {
            self.append_raw(n, payload)
        }
    }

    /// Appends record `n` with `payload` stored exactly as given.
    #[verifier::rlimit(50)]
    pub fn append_raw(&mut self, n: u64, payload: &Vec<u8>) -> (r: Result<(), FreezerError>)
        requires
            old(self).wf(),
        ensures
            final(self).wf(),
            final(self).opened == old(self).opened,
            final(self).max_file_size == old(self).max_file_size,
            final(self).enable_compression == old(self).enable_compression,
            final(self).files == old(self).files,
            r == old(self).append_raw_result(n, payload@.len()),
            r is Err ==> final(self).index@ == old(self).index@ && final(self).files() == old(
                self,
            ).files() && final(self).number == old(self).number,
            r is Ok ==> final(self).view_records() == old(self).view_records().push(payload@)
                && final(self).number == old(self).number + 1,
            r is Ok ==> entry_end(final(self).index@, n as int) <= final(self).max_file_size
                || record_start(final(self).index@, n as int) == 0,
    {
        if !self.opened {
            return Err(FreezerError::Closed);
        }
        if n != self.number {
            return Err(FreezerError::OutOfOrder);
        }
        let len = payload.len();
        let max = self.max_file_size as u64;
        let roll = self.head.bytes > max || len as u64 > max - self.head.bytes;
        assert(roll == old(self).rolls(len as nat));
        let ghost files0 = self.files();
        let ghost idx0 = self.index@;
        if roll {
            if len > 65535 || self.head.file_id == u32::MAX {
                return Err(FreezerError::TooLarge);
            }
            let mut sealed_head: Vec<u8> = Vec::new();
            std::mem::swap(&mut sealed_head, &mut self.head.file);
            self.sealed.push(sealed_head);
            self.head.file_id = self.head.file_id + 1;
            self.head.bytes = 0;
        }
        append_bytes(&mut self.head.file, payload);
        self.head.bytes = self.head.bytes + len as u64;
        let entry = IndexEntry { file_id: self.head.file_id, offset: self.head.bytes as u16 };
        entry.write_to(&mut self.index);
        self.number = (self.index.len() / 6) as u64;
        proof {
            lemma_append(idx0, files0, payload@, roll, entry.file_id, entry.offset);
            assert(self.files() =~= files_after_write(files0, payload@, roll));
        }
        Ok(())
    }

    /// Record `n`, decompressed when compression is on, or `None` when no
    /// record `n` is stored.
    pub fn retrieve(&mut self, n: u64) -> (r: Result<Option<Vec<u8>>, FreezerError>)
        requires
            old(self).wf(),
        ensures
            final(self).wf(),
            final(self).opened == old(self).opened,
            final(self).index@ == old(self).index@,
            final(self).files() == old(self).files(),
            final(self).number == old(self).number,
            final(self).max_file_size == old(self).max_file_size,
            final(self).enable_compression == old(self).enable_compression,
            final(self).files.capacity == old(self).files.capacity,
            !old(self).opened ==> r == Err::<Option<Vec<u8>>, FreezerError>(FreezerError::Closed),
            old(self).opened ==> view_result(r) == old(self).decoded(old(self).lookup(n as int)),
    {
        let stored = self.retrieve_raw(n)?;
        match stored {
            None => Ok(None),
            Some(bytes) => if self.enable_compression {
                decoded_record(snappy_decompress(&bytes))
            } else {
                Ok(Some(bytes))
            },
        }
    }

    /// The stored bytes of record `n`, or `None` when no record `n` is stored.
    pub fn retrieve_raw(&mut self, n: u64) -> (r: Result<Option<Vec<u8>>, FreezerError>)
        requires
            old(self).wf(),
        ensures
            final(self).wf(),
            final(self).opened == old(self).opened,
            final(self).index@ == old(self).index@,
            final(self).files() == old(self).files(),
            final(self).number == old(self).number,
            final(self).head.file_id == old(self).head.file_id,
            final(self).max_file_size == old(self).max_file_size,
            final(self).enable_compression == old(self).enable_compression,
            final(self).files.capacity == old(self).files.capacity,
            match r {
                Ok(v) => old(self).opened && view_opt(v) == old(self).lookup(n as int),
                Err(e) => !old(self).opened && e == FreezerError::Closed,
            },
    {
        if !self.opened {
            return Err(FreezerError::Closed);
        }
        if n == 0 || n >= self.number {
            return Ok(None);
        }
        let count = self.index.len() / 6;
        assert(n < count);
        let i = n as usize;
        let prev = IndexEntry::read_at(&self.index, i - 1);
        let cur = IndexEntry::read_at(&self.index, i);
        let file = cur.file_id;
        let start = if prev.file_id == file {
            prev.offset as usize
        } else {
            0
        };
        let end = cur.offset as usize;
        proof {
            let idx = self.index@;
            let m = entry_count(idx);
            assert(entry_file(idx, i - 1) <= entry_file(idx, i as int));
            assert(entry_file(idx, i as int) <= entry_file(idx, m - 1));
            assert(0 <= entry_file(idx, i as int) < self.files().len());
        }
        if file == self.head.file_id {
            Ok(Some(copy_range(&self.head.file, start, end)))
        } else {
            self.files.touch(file);
            proof {
                assert forall|x: u32| self.files.order@.contains(x) implies x < self.head.file_id by {
                    crate::cache::lemma_touched_contains(old(self).files.order@, old(self).files.capacity as nat, file, x);
                }
            }
            Ok(Some(copy_range(&self.sealed[file as usize], start, end)))
        }
    }

    /// Keeps records `1 ..= items` and drops the rest; a no-op when no
    /// record after `items` is stored.
    pub fn truncate(&mut self, items: u64) -> (r: Result<(), FreezerError>)
        requires
            old(self).wf(),
        ensures
            final(self).wf(),
            final(self).opened == old(self).opened,
            final(self).max_file_size == old(self).max_file_size,
            final(self).enable_compression == old(self).enable_compression,
            final(self).files.capacity == old(self).files.capacity,
            !old(self).opened ==> r == Err::<(), FreezerError>(FreezerError::Closed),
            old(self).opened ==> r is Ok,
            (!old(self).opened || items + 1 >= old(self).number) ==> final(self).index@ == old(
                self,
            ).index@ && final(self).files() == old(self).files() && final(self).number == old(
                self,
            ).number,
            old(self).opened && items + 1 < old(self).number ==> final(self).view_records() == old(
                self,
            ).view_records().subrange(0, items as int) && final(self).number == items + 1,
    {
        if !self.opened {
            return Err(FreezerError::Closed);
        }
        if items >= self.number - 1 {
            return Ok(());
        }
        let ghost idx0 = self.index@;
        let ghost files0 = self.files();
        let count = self.index.len() / 6;
        assert(items < count);
        let keep = IndexEntry::read_at(&self.index, items as usize);
        let kf = keep.file_id;
        proof {
            let m = entry_count(idx0);
            assert(entry_file(idx0, items as int) <= entry_file(idx0, m - 1));
            assert(0 <= entry_file(idx0, items as int) < files0.len());
            assert(entry_end(idx0, items as int) <= files0[kf as int].len());
            lemma_truncate(idx0, files0, items as int);
        }
        if kf < self.head.file_id {
            self.sealed.truncate(kf as usize + 1);
            let file = self.sealed.pop().unwrap();
            self.head.file = file;
        }
        self.head.file.truncate(keep.offset as usize);
        self.index.truncate(6 * (items as usize + 1));
        self.files.retain_below(kf);
        self.head.file_id = kf;
        self.head.bytes = keep.offset as u64;
        self.number = items + 1;
        assert(self.files() =~= files_after_truncate(idx0, files0, items as int));
        Ok(())
    }

    /// The next record number to append (one past the last stored record).
    pub fn number(&self) -> (r: u64)
        ensures
            r == self.number,
    {
        self.number
    }

    /// Closes the freezer and hands back its directory.
    pub fn close(self) -> (r: Volume)
        ensures
            r.index@ == self.index@,
            r.files() == self.files(),
    {
        let FreezerFiles { index, mut sealed, head, opened, .. } = self;
        if opened {
            sealed.push(head.file);
        }
        let r = Volume { index, data: sealed };
        assert(r.files() =~= self.files());
        r
    }
}

} // verus!
