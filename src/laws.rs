//! Properties of the freezer that relate several operations, stated over
//! the same views that the operations' contracts use.
use vstd::prelude::*;
use crate::freezer::{FreezerError, FreezerFiles, MAX_FILE_SIZE_LIMIT};
use crate::layout::{consistent, records};

verus! {

/// Round trip: when the stored records are `ps`, the stored bytes of record
/// `i` are `ps[i - 1]` for `1 <= i <= ps.len()`, and there are none for `0`
/// or for any number past the last record. Without compression a retrieval
/// returns exactly those bytes.
pub proof fn lemma_round_trip(f: FreezerFiles, ps: Seq<Seq<u8>>)
    requires
        f.wf(),
        f.opened,
        f.view_records() == ps,
    ensures
        f.number == ps.len() + 1,
        forall|i: int| 1 <= i <= ps.len() ==> #[trigger] f.lookup(i) == Some(ps[i - 1]),
        f.lookup(0) is None,
        forall|j: int| j > ps.len() ==> #[trigger] f.lookup(j) is None,
        !f.enable_compression ==> forall|i: int| 1 <= i <= ps.len() ==> #[trigger] f.decoded(f.lookup(i))
            == Ok::<Option<Seq<u8>>, FreezerError>(Some(ps[i - 1])),
        forall|j: int| (j == 0 || j > ps.len()) ==> #[trigger] f.decoded(f.lookup(j)) == Ok::<
            Option<Seq<u8>>,
            FreezerError,
        >(None),
{
    assert forall|i: int| 1 <= i <= ps.len() implies #[trigger] f.lookup(i) == Some(ps[i - 1]) by {
        assert(ps[i - 1] == records(f.index@, f.files())[i - 1]);
    }
}

/// Appending one record keeps every earlier retrieval and makes the new
/// record retrievable under its number.
pub proof fn lemma_append_then_retrieve(before: FreezerFiles, after: FreezerFiles, p: Seq<u8>)
    requires
        before.wf(),
        before.opened,
        after.wf(),
        after.opened,
        after.view_records() == before.view_records().push(p),
    ensures
        after.number == before.number + 1,
        after.lookup(before.number as int) == Some(p),
        forall|i: int| i != before.number ==> #[trigger] after.lookup(i) == before.lookup(i),
{
    let ps = before.view_records();
    lemma_round_trip(before, ps);
    lemma_round_trip(after, ps.push(p));
    assert forall|i: int| i != before.number implies #[trigger] after.lookup(i) == before.lookup(i) by {
        if 1 <= i < before.number {
            assert(after.lookup(i) == Some(ps.push(p)[i - 1]));
            assert(before.lookup(i) == Some(ps[i - 1]));
        } else if i > before.number {
            assert(after.lookup(i) is None);
            assert(before.lookup(i) is None);
        } else {
            assert(after.lookup(i) is None);
            assert(before.lookup(i) is None);
        }
    }
}

/// Reopening: an open freezer's directory is consistent, so recovery on
/// reopen keeps it as it is, and a freezer over the same index and data
/// files answers every retrieval as before.
pub proof fn lemma_reopen(f: FreezerFiles, g: FreezerFiles)
    requires
        f.wf(),
        f.opened,
        g.index@ == f.index@,
        g.files() == f.files(),
    ensures
        consistent(f.index@, f.files()),
        forall|n: int| #[trigger] g.lookup(n) == f.lookup(n),
{
}

/// Truncate: after keeping `m` records, records `1 ..= m` are retrieved as
/// before, later numbers give nothing, the next number is `m + 1`, and an
/// append of record `m + 1` is accepted when its stored form fits an entry.
pub proof fn lemma_truncate_keeps_prefix(before: FreezerFiles, after: FreezerFiles, m: int, q: Seq<u8>)
    requires
        before.wf(),
        before.opened,
        after.wf(),
        after.opened,
        0 <= m,
        m + 1 < before.number,
        after.view_records() == before.view_records().subrange(0, m),
        after.number == m + 1,
        after.stored_form(q) is Some,
        after.stored_form(q).unwrap().len() <= MAX_FILE_SIZE_LIMIT,
        after.head.file_id < u32::MAX,
    ensures
        forall|i: int| 1 <= i <= m ==> #[trigger] after.lookup(i) == before.lookup(i) && after.lookup(i) is Some,
        forall|i: int| i > m ==> #[trigger] after.lookup(i) is None,
        after.append_result((m + 1) as u64, q) == Ok::<(), FreezerError>(()),
{
    let ps = before.view_records();
    lemma_round_trip(before, ps);
    lemma_round_trip(after, ps.subrange(0, m));
    assert forall|i: int| 1 <= i <= m implies #[trigger] after.lookup(i) == before.lookup(i)
        && after.lookup(i) is Some by {
        assert(after.lookup(i) == Some(ps.subrange(0, m)[i - 1]));
        assert(before.lookup(i) == Some(ps[i - 1]));
    }
}

/// The number of open data files never exceeds the cache capacity plus one
/// for the head.
pub proof fn lemma_handle_bound(f: FreezerFiles)
    requires
        f.wf(),
    ensures
        f.open_handles() <= f.files.capacity + 1,
{
}

} // verus!
