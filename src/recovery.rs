//! Bringing a directory back to a consistent state after an unclean stop:
//! the index is cut to whole entries, entries that reach past the data are
//! dropped from the tail, the head data file is cut to the last entry, and
//! the rest of the index is validated.
use vstd::prelude::*;
use crate::index::{entry_bytes, entry_end, entry_file, IndexEntry};
use crate::layout::{consistent, entry_count, ordered_below, within_files_below};

verus! {

/// The contents of a list of data-file buffers.
pub open spec fn view_files(data: Seq<Vec<u8>>) -> Seq<Seq<u8>> {
    data.map_values(|v: Vec<u8>| v@)
}

/// Entry `m - 1` names an existing data file and ends within it.
pub open spec fn tail_fits(idx: Seq<u8>, files: Seq<Seq<u8>>, m: int) -> bool {
    &&& 0 <= entry_file(idx, m - 1) < files.len()
    &&& entry_end(idx, m - 1) <= files[entry_file(idx, m - 1)].len()
}

/// Entry `j` follows entry `j - 1` in order and lies within its file.
pub open spec fn step_fits(idx: Seq<u8>, files: Seq<Seq<u8>>, j: int) -> bool {
    &&& entry_file(idx, j - 1) <= entry_file(idx, j)
    &&& entry_file(idx, j - 1) == entry_file(idx, j) ==> entry_end(idx, j - 1) <= entry_end(idx, j)
    &&& entry_file(idx, j) < files.len()
    &&& entry_end(idx, j) <= files[entry_file(idx, j)].len()
}

fn tail_ok(index: &Vec<u8>, data: &Vec<Vec<u8>>, m: usize) -> (r: bool)
    requires
        1 <= m,
        6 * m <= index@.len(),
    ensures
        r == tail_fits(index@, view_files(data@), m as int),
{
    let e = IndexEntry::read_at(index, m - 1);
    let f = e.file_id as usize;
    if f < data.len() {
        (e.offset as usize) <= data[f].len()
    } else {
        false
    }
}

fn step_ok(index: &Vec<u8>, data: &Vec<Vec<u8>>, j: usize) -> (r: bool)
    requires
        1 <= j,
        6 * j + 6 <= index@.len(),
    ensures
        r == step_fits(index@, view_files(data@), j as int),
{
    let prev = IndexEntry::read_at(index, j - 1);
    let cur = IndexEntry::read_at(index, j);
    if prev.file_id > cur.file_id {
        return false;
    }
    if prev.file_id == cur.file_id && prev.offset > cur.offset {
        return false;
    }
    let f = cur.file_id as usize;
    if f < data.len() {
        (cur.offset as usize) <= data[f].len()
    } else {
        false
    }
}

proof fn lemma_ordered_extend(idx: Seq<u8>, files: Seq<Seq<u8>>, j: int)
    requires
        1 <= j,
        ordered_below(idx, j),
        within_files_below(idx, files, j),
        step_fits(idx, files, j),
    ensures
        ordered_below(idx, j + 1),
        within_files_below(idx, files, j + 1),
{
    assert forall|a: int, b: int| 0 <= a <= b < j + 1 implies #[trigger] entry_file(idx, a)
        <= #[trigger] entry_file(idx, b) && (entry_file(idx, a) == entry_file(idx, b)
        ==> entry_end(idx, a) <= entry_end(idx, b)) by {
        if b == j && a < j {
            assert(entry_file(idx, a) <= entry_file(idx, j - 1));
            if entry_file(idx, a) == entry_file(idx, j) {
                assert(entry_end(idx, a) <= entry_end(idx, j - 1));
            }
        }
    }
}

/// The index cut down to whole entries.
pub open spec fn aligned(idx: Seq<u8>) -> Seq<u8> {
    idx.subrange(0, idx.len() as int / 6 * 6)
}

/// The aligned index, or the lone `(0, 0)` sentinel when it holds no entry.
pub open spec fn seeded_index(idx: Seq<u8>) -> Seq<u8> {
    if aligned(idx).len() == 0 {
        entry_bytes(0, 0)
    } else {
        aligned(idx)
    }
}

/// The data files, or one empty file when there is none.
pub open spec fn seeded_files(files: Seq<Seq<u8>>) -> Seq<Seq<u8>> {
    if files.len() == 0 {
        seq![Seq::<u8>::empty()]
    } else {
        files
    }
}

/// How many entries survive: entries are dropped from the tail of the first
/// `m` while the last one does not fit the data files, down to one.
pub open spec fn kept(idx: Seq<u8>, files: Seq<Seq<u8>>, m: int) -> int
    decreases m,
{
    if m <= 1 {
        1
    } else if tail_fits(idx, files, m) {
        m
    } else {
        kept(idx, files, m - 1)
    }
}

/// The index after recovery.
pub open spec fn repaired_index(idx: Seq<u8>, files: Seq<Seq<u8>>) -> Seq<u8> {
    let i = seeded_index(idx);
    i.subrange(0, 6 * kept(i, seeded_files(files), entry_count(i)))
}

/// The data files after recovery: when the last surviving entry fits, the
/// files after its file are removed and its file is cut at its end.
pub open spec fn repaired_files(idx: Seq<u8>, files: Seq<Seq<u8>>) -> Seq<Seq<u8>> {
    let i = seeded_index(idx);
    let fs = seeded_files(files);
    let k = kept(i, fs, entry_count(i));
    if tail_fits(i, fs, k) {
        let f = entry_file(i, k - 1);
        fs.subrange(0, f + 1).update(f, fs[f].subrange(0, entry_end(i, k - 1)))
    } else {
        fs
    }
}

proof fn lemma_kept(idx: Seq<u8>, files: Seq<Seq<u8>>, m: int)
    requires
        1 <= m,
    ensures
        1 <= kept(idx, files, m) <= m,
        kept(idx, files, m) == 1 || tail_fits(idx, files, kept(idx, files, m)),
        tail_fits(idx, files, m) ==> kept(idx, files, m) == m,
    decreases m,
{
    if m > 1 && !tail_fits(idx, files, m) {
        lemma_kept(idx, files, m - 1);
    }
}

proof fn lemma_seeded(idx: Seq<u8>, files: Seq<Seq<u8>>)
    ensures
        seeded_index(idx).len() % 6 == 0,
        entry_count(seeded_index(idx)) >= 1,
        seeded_files(files).len() >= 1,
        idx.len() < 6 ==> entry_count(seeded_index(idx)) == 1 && entry_file(seeded_index(idx), 0)
            == 0 && entry_end(seeded_index(idx), 0) == 0,
{
    crate::index::lemma_entry_bytes_decode(0, 0);
}

/// An index without a whole entry is repaired to the lone sentinel, which is
/// consistent.
pub proof fn lemma_repair_empty_index(idx: Seq<u8>, files: Seq<Seq<u8>>)
    requires
        idx.len() < 6,
    ensures
        consistent(repaired_index(idx, files), repaired_files(idx, files)),
        entry_count(repaired_index(idx, files)) == 1,
{
    let i = seeded_index(idx);
    let fs = seeded_files(files);
    lemma_seeded(idx, files);
    lemma_kept(i, fs, 1);
    crate::layout::lemma_index_prefix(i, 1);
    assert(tail_fits(i, fs, 1));
    let i1 = repaired_index(idx, files);
    let f1 = repaired_files(idx, files);
    assert(i1 =~= i.subrange(0, 6));
    assert(entry_file(i1, 0) == 0);
    assert(f1.len() == 1);
    assert(f1[0].len() == 0);
}

/// A consistent directory is its own repair.
pub proof fn lemma_repair_keeps_consistent(idx: Seq<u8>, files: Seq<Seq<u8>>)
    requires
        consistent(idx, files),
    ensures
        repaired_index(idx, files) == idx,
        repaired_files(idx, files) == files,
{
    let m = entry_count(idx);
    assert(aligned(idx) =~= idx);
    assert(tail_fits(idx, files, m)) by {
        assert(0 <= entry_file(idx, m - 1) < files.len());
    }
    lemma_kept(idx, files, m);
    assert(idx.subrange(0, 6 * m) =~= idx);
    let f = entry_file(idx, m - 1);
    assert(files[f].subrange(0, entry_end(idx, m - 1)) =~= files[f]);
    assert(files.subrange(0, f + 1).update(f, files[f].subrange(0, entry_end(idx, m - 1))) =~= files);
}

/// Recovery is idempotent: repairing a repaired directory changes nothing.
#[verifier::rlimit(100)]
pub proof fn lemma_repair_idempotent(idx: Seq<u8>, files: Seq<Seq<u8>>)
    ensures
        repaired_index(repaired_index(idx, files), repaired_files(idx, files)) == repaired_index(
            idx,
            files,
        ),
        repaired_files(repaired_index(idx, files), repaired_files(idx, files)) == repaired_files(
            idx,
            files,
        ),
{
    let i = seeded_index(idx);
    let fs = seeded_files(files);
    let m = entry_count(i);
    lemma_seeded(idx, files);
    lemma_kept(i, fs, m);
    let k = kept(i, fs, m);
    let i1 = repaired_index(idx, files);
    let f1 = repaired_files(idx, files);
    crate::layout::lemma_index_prefix(i, k);
    assert(i1 == i.subrange(0, 6 * k));
    assert(entry_count(i1) == k);
    assert(aligned(i1) =~= i1);
    assert(seeded_index(i1) == i1);
    assert(entry_file(i1, k - 1) == entry_file(i, k - 1));
    assert(entry_end(i1, k - 1) == entry_end(i, k - 1));
    if tail_fits(i, fs, k) {
        let f = entry_file(i, k - 1);
        assert(f1.len() == f + 1);
        assert(seeded_files(f1) == f1);
        assert(tail_fits(i1, f1, k));
        lemma_kept(i1, f1, k);
        assert(i1.subrange(0, 6 * k) =~= i1);
        assert(f1[f].subrange(0, entry_end(i, k - 1)) =~= f1[f]);
        assert(f1.subrange(0, f + 1).update(f, f1[f].subrange(0, entry_end(i, k - 1))) =~= f1);
    } else {
        assert(k == 1);
        assert(f1 == fs);
        assert(seeded_files(f1) == f1);
        assert(!tail_fits(i1, f1, 1));
        assert(i1.subrange(0, 6) =~= i1);
    }
}

/// Repairs the index bytes `index` and the data files `data` in place and
/// returns whether the repaired directory is consistent.
#[verifier::rlimit(50)]
pub fn recover(index: &mut Vec<u8>, data: &mut Vec<Vec<u8>>) -> (ok: bool)
    ensures
        final(index)@ == repaired_index(old(index)@, view_files(old(data)@)),
        view_files(final(data)@) == repaired_files(old(index)@, view_files(old(data)@)),
        ok == consistent(final(index)@, view_files(final(data)@)),
{
    let ghost idx_in = old(index)@;
    let ghost files_in = view_files(old(data)@);
    let whole: usize = index.len() / 6 * 6;
    index.truncate(whole);
    if index.len() == 0 {
        let sentinel = IndexEntry { file_id: 0, offset: 0 };
        sentinel.write_to(index);
    }
    if data.len() == 0 {
        data.push(Vec::new());
    }
    let ghost i0 = index@;
    let ghost fs0 = view_files(data@);
    proof {
        assert(i0 =~= seeded_index(idx_in));
        assert(fs0 =~= seeded_files(files_in));
        lemma_seeded(idx_in, files_in);
    }
    let mut m: usize = index.len() / 6;
    while m > 1 && !tail_ok(index, data, m)
        invariant
            1 <= m <= entry_count(i0),
            index@ == i0,
            view_files(data@) == fs0,
            kept(i0, fs0, m as int) == kept(i0, fs0, entry_count(i0)),
        decreases m,
    {
        m -= 1;
    }
    proof {
        lemma_kept(i0, fs0, m as int);
        crate::layout::lemma_index_prefix(i0, m as int);
    }
    index.truncate(6 * m);
    if !tail_ok(index, data, m) {
        proof {
            assert(m == 1);
            if consistent(index@, view_files(data@)) {
                assert(0 <= entry_file(index@, 0) < view_files(data@).len());
            }
        }
        return false;
    }
    let last = IndexEntry::read_at(index, m - 1);
    let f = last.file_id as usize;
    data.truncate(f + 1);
    let mut head = data.pop().unwrap();
    head.truncate(last.offset as usize);
    data.push(head);
    proof {
        assert(view_files(data@) =~= fs0.subrange(0, f + 1).update(
            f as int,
            fs0[f as int].subrange(0, last.offset as int),
        ));
    }
    proof {
        assert(index@ == repaired_index(idx_in, files_in));
        assert(view_files(data@) == repaired_files(idx_in, files_in));
    }
    let first = IndexEntry::read_at(index, 0);
    if first.file_id != 0 || first.offset != 0 {
        return false;
    }
    let mut j: usize = 1;
    while j < m
        invariant
            1 <= j <= m,
            index@.len() == 6 * m,
            entry_count(index@) == m,
            entry_file(index@, 0) == 0,
            entry_end(index@, 0) == 0,
            entry_file(index@, m - 1) == f,
            entry_end(index@, m - 1) == last.offset,
            view_files(data@).len() == f + 1,
            view_files(data@)[f as int].len() == last.offset,
            ordered_below(index@, j as int),
            within_files_below(index@, view_files(data@), j as int),
            index@ == repaired_index(idx_in, files_in),
            view_files(data@) == repaired_files(idx_in, files_in),
            idx_in == old(index)@,
            files_in == view_files(old(data)@),
        decreases m - j,
    {
        if !step_ok(index, data, j) {
            proof {
                if consistent(index@, view_files(data@)) {
                    let jj = j as int;
                    assert(entry_file(index@, jj - 1) <= entry_file(index@, jj));
                    assert(0 <= entry_file(index@, jj) < view_files(data@).len());
                    assert(step_fits(index@, view_files(data@), jj));
                }
            }
            return false;
        }
        proof {
            lemma_ordered_extend(index@, view_files(data@), j as int);
        }
        j += 1;
    }
    true
}

} // verus!
