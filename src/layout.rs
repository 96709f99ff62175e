//! What the index and the data files mean: where each record lies, and the
//! consistency that the freezer keeps between the two at rest.
use vstd::prelude::*;
use crate::index::{entry_bytes, entry_end, entry_file, be16_at, be32_at, lemma_entry_bytes_decode};

verus! {

/// Number of complete entries in the index bytes `idx`.
pub open spec fn entry_count(idx: Seq<u8>) -> int {
    idx.len() as int / 6
}

/// Byte offset where record `i` starts: the end of record `i - 1` when both
/// lie in the same data file, else the start of the file.
pub open spec fn record_start(idx: Seq<u8>, i: int) -> int {
    if entry_file(idx, i - 1) == entry_file(idx, i) {
        entry_end(idx, i - 1)
    } else {
        0
    }
}

/// The bytes of record `i`, read from the data files `files`.
pub open spec fn record(idx: Seq<u8>, files: Seq<Seq<u8>>, i: int) -> Seq<u8> {
    files[entry_file(idx, i)].subrange(record_start(idx, i), entry_end(idx, i))
}

/// Records `1 .. entry_count(idx)` in order (entry 0 is the start sentinel).
pub open spec fn records(idx: Seq<u8>, files: Seq<Seq<u8>>) -> Seq<Seq<u8>> {
    Seq::new((entry_count(idx) - 1) as nat, |k: int| record(idx, files, k + 1))
}

/// What a retrieval of record `n` yields.
pub open spec fn lookup(idx: Seq<u8>, files: Seq<Seq<u8>>, n: int) -> Option<Seq<u8>> {
    if 1 <= n < entry_count(idx) {
        Some(record(idx, files, n))
    } else {
        None
    }
}

/// Entries `i <= j` below `m` are ordered: file numbers never decrease, and
/// within one file end offsets never decrease.
pub open spec fn ordered_below(idx: Seq<u8>, m: int) -> bool {
    forall|i: int, j: int|
        0 <= i <= j < m ==> #[trigger] entry_file(idx, i) <= #[trigger] entry_file(idx, j) && (
        entry_file(idx, i) == entry_file(idx, j) ==> entry_end(idx, i) <= entry_end(idx, j))
}

/// Every entry below `m` names an existing file and ends within it.
pub open spec fn within_files_below(idx: Seq<u8>, files: Seq<Seq<u8>>, m: int) -> bool {
    forall|i: int|
        0 <= i < m ==> 0 <= #[trigger] entry_file(idx, i) < files.len() && entry_end(idx, i)
            <= files[entry_file(idx, i)].len()
}

/// The state of a directory at rest: whole entries, the `(0, 0)` sentinel
/// first, ordered entries that lie within their files, and the last data
/// file (the head) exactly as long as the last entry says.
pub open spec fn consistent(idx: Seq<u8>, files: Seq<Seq<u8>>) -> bool {
    let m = entry_count(idx);
    &&& idx.len() % 6 == 0
    &&& m >= 1
    &&& entry_file(idx, 0) == 0
    &&& entry_end(idx, 0) == 0
    &&& files.len() == entry_file(idx, m - 1) + 1
    &&& files[entry_file(idx, m - 1)].len() == entry_end(idx, m - 1)
    &&& ordered_below(idx, m)
    &&& within_files_below(idx, files, m)
}

/// Appending the bytes of one entry keeps every earlier entry and adds `(f, e)`.
pub proof fn lemma_index_push(idx: Seq<u8>, f: u32, e: u16)
    requires
        idx.len() % 6 == 0,
    ensures
        entry_count(idx + entry_bytes(f, e)) == entry_count(idx) + 1,
        (idx + entry_bytes(f, e)).len() % 6 == 0,
        entry_file(idx + entry_bytes(f, e), entry_count(idx)) == f,
        entry_end(idx + entry_bytes(f, e), entry_count(idx)) == e,
        forall|i: int|
            0 <= i < entry_count(idx) ==> #[trigger] entry_file(idx + entry_bytes(f, e), i)
                == entry_file(idx, i) && entry_end(idx + entry_bytes(f, e), i) == entry_end(idx, i),
{
    let b = entry_bytes(f, e);
    let s = idx + b;
    let m = entry_count(idx);
    lemma_entry_bytes_decode(f, e);
    assert(idx.len() == 6 * m);
    assert(s[6 * m] == b[0]);
    assert(s[6 * m + 1] == b[1]);
    assert(s[6 * m + 2] == b[2]);
    assert(s[6 * m + 3] == b[3]);
    assert(s[6 * m + 4] == b[4]);
    assert(s[6 * m + 5] == b[5]);
    assert(be32_at(s, 6 * m) == be32_at(b, 0));
    assert(be16_at(s, 6 * m + 4) == be16_at(b, 4));
    assert forall|i: int| 0 <= i < m implies #[trigger] entry_file(s, i) == entry_file(idx, i)
        && entry_end(s, i) == entry_end(idx, i) by {
        assert(s[6 * i] == idx[6 * i]);
        assert(s[6 * i + 1] == idx[6 * i + 1]);
        assert(s[6 * i + 2] == idx[6 * i + 2]);
        assert(s[6 * i + 3] == idx[6 * i + 3]);
        assert(s[6 * i + 4] == idx[6 * i + 4]);
        assert(s[6 * i + 5] == idx[6 * i + 5]);
    }
}

/// Cutting the index after `k` whole entries keeps those entries.
pub proof fn lemma_index_prefix(idx: Seq<u8>, k: int)
    requires
        0 <= k,
        6 * k <= idx.len(),
    ensures
        entry_count(idx.subrange(0, 6 * k)) == k,
        idx.subrange(0, 6 * k).len() % 6 == 0,
        forall|i: int|
            0 <= i < k ==> #[trigger] entry_file(idx.subrange(0, 6 * k), i) == entry_file(idx, i)
                && entry_end(idx.subrange(0, 6 * k), i) == entry_end(idx, i),
{
    let s = idx.subrange(0, 6 * k);
    assert forall|i: int| 0 <= i < k implies #[trigger] entry_file(s, i) == entry_file(idx, i)
        && entry_end(s, i) == entry_end(idx, i) by {
        assert(s[6 * i] == idx[6 * i]);
        assert(s[6 * i + 1] == idx[6 * i + 1]);
        assert(s[6 * i + 2] == idx[6 * i + 2]);
        assert(s[6 * i + 3] == idx[6 * i + 3]);
        assert(s[6 * i + 4] == idx[6 * i + 4]);
        assert(s[6 * i + 5] == idx[6 * i + 5]);
    }
}

/// The data files after `p` is written to the head (`roll` false) or to a
/// fresh data file after it (`roll` true).
pub open spec fn files_after_write(files: Seq<Seq<u8>>, p: Seq<u8>, roll: bool) -> Seq<Seq<u8>> {
    if roll {
        files.push(p)
    } else {
        files.update(files.len() - 1, files[files.len() - 1] + p)
    }
}

/// Writing a record and then its index entry keeps a consistent directory
/// consistent, keeps every earlier record, and adds the new one last.
pub proof fn lemma_append(idx: Seq<u8>, files: Seq<Seq<u8>>, p: Seq<u8>, roll: bool, f: u32, e: u16)
    requires
        consistent(idx, files),
        roll ==> f == files.len() && e == p.len(),
        !roll ==> f == files.len() - 1 && e == files[files.len() - 1].len() + p.len(),
    ensures
        consistent(idx + entry_bytes(f, e), files_after_write(files, p, roll)),
        records(idx + entry_bytes(f, e), files_after_write(files, p, roll)) == records(idx, files).push(p),
        record_start(idx + entry_bytes(f, e), entry_count(idx)) == if roll { 0 } else {
            files[files.len() - 1].len() as int
        },
{
    let idx2 = idx + entry_bytes(f, e);
    let files2 = files_after_write(files, p, roll);
    let m = entry_count(idx);
    let h = files.len() - 1;
    lemma_index_push(idx, f, e);
    assert(entry_file(idx, m - 1) == h);
    assert(entry_file(idx2, m - 1) == h);
    assert(entry_end(idx2, m - 1) == files[h].len());
    assert forall|i: int| 1 <= i < m implies #[trigger] files2[entry_file(idx, i)].subrange(
        record_start(idx, i), entry_end(idx, i)) == files[entry_file(idx, i)].subrange(
        record_start(idx, i), entry_end(idx, i)) by {
        assert(entry_file(idx, i) <= h);
        assert(entry_file(idx, i - 1) <= entry_file(idx, i));
        if !roll && entry_file(idx, i) == h {
            assert(entry_end(idx, i) <= files[h].len());
            assert(files2[h].subrange(record_start(idx, i), entry_end(idx, i)) =~= files[h].subrange(
                record_start(idx, i), entry_end(idx, i)));
        }
    }
    assert forall|i: int, j: int| 0 <= i <= j < m + 1 implies #[trigger] entry_file(idx2, i)
        <= #[trigger] entry_file(idx2, j) && (entry_file(idx2, i) == entry_file(idx2, j)
        ==> entry_end(idx2, i) <= entry_end(idx2, j)) by {
        if j == m && i < m {
            assert(entry_file(idx, i) <= entry_file(idx, m - 1));
            if entry_file(idx, i) == h {
                assert(entry_end(idx, i) <= entry_end(idx, m - 1));
            }
        } else if j < m {
            assert(entry_file(idx, i) <= entry_file(idx, j));
        }
    }
    assert forall|i: int| 0 <= i < m + 1 implies 0 <= #[trigger] entry_file(idx2, i) < files2.len()
        && entry_end(idx2, i) <= files2[entry_file(idx2, i)].len() by {
        if i < m {
            assert(entry_file(idx, i) <= h);
            assert(entry_end(idx, i) <= files[entry_file(idx, i)].len());
        }
    }
    assert(records(idx2, files2) =~= records(idx, files).push(p)) by {
        assert forall|k: int| 0 <= k < m - 1 implies records(idx2, files2)[k] == records(idx, files)[k] by {
            assert(record_start(idx2, k + 1) == record_start(idx, k + 1));
        }
        let rs = record_start(idx2, m);
        if roll {
            assert(files2[f as int] == p);
            assert(p.subrange(0, p.len() as int) =~= p);
        } else {
            assert(rs == files[h].len());
            assert(files2[h].subrange(rs, e as int) =~= p);
        }
        assert(records(idx2, files2)[m - 1] == record(idx2, files2, m));
    }
}

/// The directory after keeping records `1 ..= k`: the index cut after entry
/// `k`, the data files after entry `k`'s file dropped, that file cut at its end.
pub open spec fn files_after_truncate(idx: Seq<u8>, files: Seq<Seq<u8>>, k: int) -> Seq<Seq<u8>> {
    let kf = entry_file(idx, k);
    files.subrange(0, kf + 1).update(kf, files[kf].subrange(0, entry_end(idx, k)))
}

/// Truncating to `k` records keeps a consistent directory consistent and
/// keeps exactly the first `k` records.
pub proof fn lemma_truncate(idx: Seq<u8>, files: Seq<Seq<u8>>, k: int)
    requires
        consistent(idx, files),
        0 <= k < entry_count(idx),
    ensures
        consistent(idx.subrange(0, 6 * (k + 1)), files_after_truncate(idx, files, k)),
        records(idx.subrange(0, 6 * (k + 1)), files_after_truncate(idx, files, k)) == records(
            idx,
            files,
        ).subrange(0, k),
{
    let m = entry_count(idx);
    let idx2 = idx.subrange(0, 6 * (k + 1));
    let files2 = files_after_truncate(idx, files, k);
    let kf = entry_file(idx, k);
    lemma_index_prefix(idx, k + 1);
    assert(entry_file(idx, k) <= entry_file(idx, m - 1));
    assert forall|i: int| 0 <= i <= k implies #[trigger] entry_file(idx2, i) <= kf && (entry_file(idx2, i)
        == kf ==> entry_end(idx2, i) <= entry_end(idx, k)) by {
        assert(entry_file(idx, i) <= entry_file(idx, k));
    }
    assert forall|i: int, j: int| 0 <= i <= j < k + 1 implies #[trigger] entry_file(idx2, i)
        <= #[trigger] entry_file(idx2, j) && (entry_file(idx2, i) == entry_file(idx2, j)
        ==> entry_end(idx2, i) <= entry_end(idx2, j)) by {
        assert(entry_file(idx, i) <= entry_file(idx, j));
    }
    assert forall|i: int| 0 <= i < k + 1 implies 0 <= #[trigger] entry_file(idx2, i) < files2.len()
        && entry_end(idx2, i) <= files2[entry_file(idx2, i)].len() by {
        assert(entry_file(idx2, i) <= kf);
        assert(entry_end(idx, i) <= files[entry_file(idx, i)].len());
    }
    assert(records(idx2, files2) =~= records(idx, files).subrange(0, k)) by {
        assert forall|t: int| 0 <= t < k implies records(idx2, files2)[t] == records(idx, files)[t] by {
            let i = t + 1;
            assert(entry_file(idx2, i) <= kf);
            assert(record_start(idx2, i) == record_start(idx, i));
            assert(entry_file(idx, i - 1) <= entry_file(idx, i));
            if entry_file(idx, i) == kf {
                assert(entry_end(idx, i) <= entry_end(idx, k));
                assert(files2[kf].subrange(record_start(idx, i), entry_end(idx, i)) =~= files[kf].subrange(
                    record_start(idx, i), entry_end(idx, i)));
            }
        }
    }
}

} // verus!
