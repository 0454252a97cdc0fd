//! Query results as the editor shows them: cell text, cut to a bounded
//! number of rows.

use vstd::prelude::*;
use crate::catalog::ColumnMeta;

verus! {

/// The most rows a result hands to the page, so that a huge result cannot
/// wedge it.
pub const MAX_DISPLAY_ROWS: usize = 5000;

/// The rows of one batch of a query result.
pub enum BatchRows {
    /// The cell text of every row, one string per column.
    Formatted(Vec<Vec<String>>),
    /// The batch holds `num_rows` rows, but its cells could not be turned
    /// into text; `error` says why.
    Unformattable { num_rows: usize, error: String },
}

impl BatchRows {
    /// How many rows the batch holds.
    pub open spec fn row_count(self) -> nat {
        match self {
            BatchRows::Formatted(rows) => rows@.len(),
            BatchRows::Unformattable { num_rows, .. } => num_rows as nat,
        }
    }
}

/// One batch of a query result: its columns and its rows.
pub struct Batch {
    pub columns: Vec<ColumnMeta>,
    pub rows: BatchRows,
}

/// A query result as the page receives it.
pub struct QueryResp {
    /// The columns of the first batch; none where there is no batch.
    pub columns: Vec<ColumnMeta>,
    /// The rows shown.
    pub rows: Vec<Vec<String>>,
    /// How many rows the result holds in all.
    pub num_rows: usize,
    /// Some rows were left out.
    pub truncated: bool,
}

/// How many rows the batches hold in all.
pub open spec fn total_row_count(batches: Seq<Batch>) -> nat
    decreases batches.len(),
{
    if batches.len() == 0 {
        0
    } else {
        batches[0].rows.row_count() + total_row_count(batches.drop_first())
    }
}

/// The rows shown of `batches` where `room` more rows fit: the batches are
/// read in order, each one's rows as long as there is room. A batch is
/// reached where the rows before it left room, no row being refused yet;
/// the first batch reached whose cells could not be formatted makes the
/// whole result an error. A batch beyond the cut is never looked at.
pub open spec fn shown_rows(batches: Seq<Batch>, room: int) -> Result<Seq<Vec<String>>, String>
    decreases batches.len(),
{
    if batches.len() == 0 || room < 0 {
        Ok(Seq::empty())
    } else {
        match batches[0].rows {
            BatchRows::Unformattable { error, .. } => Err(error),
            BatchRows::Formatted(rows) => {
                let taken = if rows.len() <= room {
                    rows@
                } else {
                    rows@.take(room)
                };
                match shown_rows(batches.drop_first(), room - rows.len()) {
                    Ok(rest) => Ok(taken + rest),
                    Err(e) => Err(e),
                }
            },
        }
    }
}

/// `r` with `rows` put before the rows it holds, or the error it holds.
pub open spec fn rows_then(rows: Seq<Vec<String>>, r: Result<Seq<Vec<String>>, String>) -> Result<
    Seq<Vec<String>>,
    String,
> {
    match r {
        Ok(rest) => Ok(rows + rest),
        Err(e) => Err(e),
    }
}

/// Where there is room, the rows shown number as many as the batches hold,
/// or as many as fit, whichever is fewer.
pub proof fn law_shown_row_count(batches: Seq<Batch>, room: int)
    requires
        room >= 0,
    ensures
        shown_rows(batches, room) matches Ok(rows) ==> rows.len() == if total_row_count(batches)
            <= room {
            total_row_count(batches) as int
        } else {
            room
        },
    decreases batches.len(),
{
    if batches.len() > 0 {
        match batches[0].rows {
            BatchRows::Unformattable { .. } => {},
            BatchRows::Formatted(rows) => {
                if room - rows.len() >= 0 {
                    law_shown_row_count(batches.drop_first(), room - rows.len());
                }
            },
        }
    }
}

/// Every batch's cells could be formatted.
pub open spec fn all_formatted(batches: Seq<Batch>) -> bool {
    forall|i: int| 0 <= i < batches.len() ==> batches[i].rows is Formatted
}

/// The rows of every formatted batch, batch after batch.
pub open spec fn all_rows(batches: Seq<Batch>) -> Seq<Vec<String>>
    decreases batches.len(),
{
    if batches.len() == 0 {
        Seq::empty()
    } else {
        match batches[0].rows {
            BatchRows::Formatted(rows) => rows@ + all_rows(batches.drop_first()),
            BatchRows::Unformattable { .. } => all_rows(batches.drop_first()),
        }
    }
}

/// Where every batch could be formatted, the rows shown are the first rows
/// of the result, in order, as many as fit.
pub proof fn law_shown_rows_are_first_rows(batches: Seq<Batch>, room: int)
    requires
        room >= 0,
        all_formatted(batches),
    ensures
        shown_rows(batches, room) == Ok::<Seq<Vec<String>>, String>(
            if all_rows(batches).len() <= room {
                all_rows(batches)
            } else {
                all_rows(batches).take(room)
            },
        ),
    decreases batches.len(),
{
    if batches.len() > 0 {
        let tail = batches.drop_first();
        assert(all_formatted(tail)) by {
            assert forall|i: int| 0 <= i < tail.len() implies tail[i].rows is Formatted by {
                assert(tail[i] == batches[i + 1]);
            }
        }
        assert(batches[0].rows is Formatted);
        match batches[0].rows {
            BatchRows::Formatted(rows) => {
                let whole = all_rows(batches);
                let later = all_rows(tail);
                if room - rows.len() >= 0 {
                    law_shown_rows_are_first_rows(tail, room - rows.len());
                    if later.len() <= room - rows.len() {
                        assert(whole =~= rows@ + later);
                    } else {
                        assert(whole.take(room) =~= rows@ + later.take(room - rows.len()));
                    }
                } else {
                    assert(whole.take(room) =~= rows@.take(room) + Seq::<Vec<String>>::empty());
                }
            },
            BatchRows::Unformattable { .. } => {},
        }
    }
}

/// The sum of `counts`.
pub open spec fn sum_of(counts: Seq<usize>) -> int
    decreases counts.len(),
{
    if counts.len() == 0 {
        0
    } else {
        sum_of(counts.drop_last()) + counts.last()
    }
}

/// The sum of the row counts of a table's batches, or `None` where it does
/// not fit in a `usize`.
pub fn total_rows(counts: &[usize]) -> (r: Option<usize>)
    ensures
        match r {
            Some(t) => t == sum_of(counts@),
            None => sum_of(counts@) > usize::MAX,
        },
{
    let mut acc: usize = 0;
    let mut i: usize = 0;
    while i < counts.len()
        invariant
            i <= counts.len(),
            acc == sum_of(counts@.take(i as int)),
        decreases counts.len() - i,
    {
        assert(counts@.take(i + 1).drop_last() =~= counts@.take(i as int));
        match acc.checked_add(counts[i]) {
            Some(next) => {
                acc = next;
            },
            None => {
                proof {
                    lemma_sum_of_prefix(counts@, i + 1);
                }
                return None;
            },
        }
        i = i + 1;
    }
    assert(counts@.take(counts.len() as int) =~= counts@);
    Some(acc)
}

/// A prefix sums to no more than the whole.
proof fn lemma_sum_of_prefix(counts: Seq<usize>, k: int)
    requires
        0 <= k <= counts.len(),
    ensures
        sum_of(counts.take(k)) <= sum_of(counts),
    decreases counts.len(),
{
    if k < counts.len() {
        assert(counts.drop_last().take(k) =~= counts.take(k));
        lemma_sum_of_prefix(counts.drop_last(), k);
    } else {
        assert(counts.take(k) =~= counts);
    }
}

/// Turns query batches into the response the page shows: the columns of
/// the first batch, at most `MAX_DISPLAY_ROWS` rows in order, the total row
/// count, and whether rows were left out. An error comes back where a batch
/// that is reached could not be formatted.
pub fn batches_to_resp(batches: Vec<Batch>) -> (r: Result<QueryResp, String>)
    requires
        total_row_count(batches@) <= usize::MAX,
    ensures
        match r {
            Ok(resp) => {
                &&& shown_rows(batches@, MAX_DISPLAY_ROWS as int) == Ok::<
                    Seq<Vec<String>>,
                    String,
                >(resp.rows@)
                &&& resp.num_rows == total_row_count(batches@)
                &&& resp.truncated == (resp.num_rows > resp.rows.len())
                &&& resp.rows.len() == if resp.num_rows <= MAX_DISPLAY_ROWS {
                    resp.num_rows
                } else {
                    MAX_DISPLAY_ROWS
                }
                &&& resp.truncated == (resp.num_rows > MAX_DISPLAY_ROWS)
                &&& resp.columns@ == if batches.len() > 0 {
                    batches@[0].columns@
                } else {
                    Seq::<ColumnMeta>::empty()
                }
            },
            Err(e) => shown_rows(batches@, MAX_DISPLAY_ROWS as int) == Err::<
                Seq<Vec<String>>,
                String,
            >(e),
        },
{
    let ghost bs = batches@;
    let ghost all = total_row_count(bs);
    let mut columns: Vec<ColumnMeta> = Vec::new();
    let mut first: bool = true;
    let mut rows: Vec<Vec<String>> = Vec::new();
    let mut total: usize = 0;
    let mut stopped: bool = false;
    assert(bs.skip(0) =~= bs);
    for b in it: batches.into_iter()
        invariant
            it.seq() == bs,
            all == total_row_count(bs),
            all <= usize::MAX,
            first == (it.index() == 0),
            it.index() > 0 ==> columns@ == bs[0].columns@,
            it.index() == 0 ==> columns@ == Seq::<ColumnMeta>::empty(),
            total == all - total_row_count(bs.skip(it.index() as int)),
            stopped == (total > MAX_DISPLAY_ROWS),
            rows@.len() <= MAX_DISPLAY_ROWS,
            !stopped ==> rows@.len() == total,
            shown_rows(bs, MAX_DISPLAY_ROWS as int) == rows_then(
                rows@,
                shown_rows(bs.skip(it.index() as int), MAX_DISPLAY_ROWS - total),
            ),
    {
        let ghost k = it.index() as int;
        let ghost rest = bs.skip(k);
        assert(b == bs[k]);
        assert(rest[0] == b);
        assert(rest.drop_first() =~= bs.skip(k + 1));
        let ghost room = MAX_DISPLAY_ROWS - total;
        let Batch { columns: batch_columns, rows: batch_rows } = b;
        if first {
            columns = batch_columns;
            first = false;
        }
        match batch_rows {
            BatchRows::Unformattable { num_rows, error } => {
                if !stopped {
                    return Err(error);
                }
                total = total + num_rows;
            },
            BatchRows::Formatted(batch) => {
                let ghost pre = rows@;
                let ghost cells = batch@;
                let count: usize = batch.len();
                if !stopped {
                    for row in rit: batch.into_iter()
                        invariant
                            rit.seq() == cells,
                            0 <= room,
                            pre.len() == total,
                            room == MAX_DISPLAY_ROWS - total,
                            stopped == (rit.index() > room),
                            rows@ == pre + (if rit.index() <= room {
                                cells.take(rit.index() as int)
                            } else {
                                cells.take(room)
                            }),
                    {
                        let ghost j = rit.index() as int;
                        assert(row == cells[j]);
                        if rows.len() < MAX_DISPLAY_ROWS {
                            assert(cells.take(j + 1) =~= cells.take(j).push(row));
                            rows.push(row);
                        } else {
                            stopped = true;
                        }
                    }
                    assert(cells.take(cells.len() as int) =~= cells);
                    proof {
                        let taken = if cells.len() <= room {
                            cells
                        } else {
                            cells.take(room)
                        };
                        assert(rows@ == pre + taken);
                        let next = shown_rows(bs.skip(k + 1), room - cells.len());
                        assert(shown_rows(rest, room) == rows_then(taken, next));
                        match next {
                            Ok(x) => {
                                assert(pre + (taken + x) =~= (pre + taken) + x);
                            },
                            Err(_) => {},
                        }
                    }
                }
                total = total + count;
                stopped = total > MAX_DISPLAY_ROWS;
            },
        }
    }
    assert(bs.skip(bs.len() as int) =~= Seq::<Batch>::empty());
    assert(rows@ + Seq::<Vec<String>>::empty() =~= rows@);
    proof {
        law_shown_row_count(bs, MAX_DISPLAY_ROWS as int);
    }
    let truncated: bool = total > rows.len();
    Ok(QueryResp { columns, rows, num_rows: total, truncated })
}


/// Counting one more batch of `x` rows adds `x` to the sum.
pub proof fn law_sum_of_push(counts: Seq<usize>, x: usize)
    ensures
        sum_of(counts.push(x)) == sum_of(counts) + x,
{
    assert(counts.push(x).drop_last() =~= counts);
}

/// No counts sum to zero; one count sums to itself.
pub proof fn law_sum_of_small()
    ensures
        sum_of(Seq::<usize>::empty()) == 0,
        forall|x: usize| #[trigger] sum_of(seq![x]) == x,
{
    assert forall|x: usize| #[trigger] sum_of(seq![x]) == x by {
        assert(seq![x].drop_last() =~= Seq::<usize>::empty());
        assert(seq![x].last() == x);
        assert(sum_of(Seq::<usize>::empty()) == 0);
    }
}

/// The sum of two runs of counts, one after the other, is the sum of their sums.
pub proof fn law_sum_of_concat(a: Seq<usize>, b: Seq<usize>)
    ensures
        sum_of(a + b) == sum_of(a) + sum_of(b),
    decreases b.len(),
{
    if b.len() == 0 {
        assert(a + b =~= a);
    } else {
        let shorter = b.drop_last();
        law_sum_of_concat(a, shorter);
        assert((a + b).drop_last() =~= a + shorter);
        assert((a + b).last() == b.last());
    }
}

/// The rows of two runs of batches, one after the other, add up.
pub proof fn law_total_row_count_concat(a: Seq<Batch>, b: Seq<Batch>)
    ensures
        total_row_count(a + b) == total_row_count(a) + total_row_count(b),
    decreases a.len(),
{
    if a.len() == 0 {
        assert(a + b =~= b);
    } else {
        law_total_row_count_concat(a.drop_first(), b);
        assert((a + b).drop_first() =~= a.drop_first() + b);
        assert((a + b)[0] == a[0]);
    }
}

/// One batch holds as many rows as it counts.
pub proof fn law_total_row_count_single(b: Batch)
    ensures
        total_row_count(seq![b]) == b.rows.row_count(),
{
    assert(seq![b].drop_first() =~= Seq::<Batch>::empty());
    assert(seq![b][0] == b);
    assert(total_row_count(Seq::<Batch>::empty()) == 0);
}


/// The first unformattable batch that is reached makes the result its error:
/// one that follows formatted batches holding no more rows than fit.
pub proof fn law_reached_unformattable_is_error(
    before: Seq<Batch>,
    bad: Batch,
    after: Seq<Batch>,
    room: int,
    num_rows: usize,
    error: String,
)
    requires
        all_formatted(before),
        total_row_count(before) <= room,
        bad.rows == (BatchRows::Unformattable { num_rows, error }),
    ensures
        shown_rows(before + seq![bad] + after, room) == Err::<Seq<Vec<String>>, String>(error),
    decreases before.len(),
{
    let all = before + seq![bad] + after;
    if before.len() == 0 {
        assert(all[0] == bad);
    } else {
        let tail = before.drop_first();
        assert(before[0].rows is Formatted);
        assert(all_formatted(tail)) by {
            assert forall|i: int| 0 <= i < tail.len() implies tail[i].rows is Formatted by {
                assert(tail[i] == before[i + 1]);
            }
        }
        assert(all[0] == before[0]);
        assert(all.drop_first() =~= tail + seq![bad] + after);
        match before[0].rows {
            BatchRows::Formatted(rows) => {
                law_reached_unformattable_is_error(tail, bad, after, room - rows.len(), num_rows, error);
            },
            BatchRows::Unformattable { .. } => {},
        }
    }
}

/// Batches after formatted batches that already hold more rows than fit are
/// never looked at.
pub proof fn law_batches_beyond_cut_ignored(before: Seq<Batch>, after: Seq<Batch>, room: int)
    requires
        all_formatted(before),
        total_row_count(before) > room,
    ensures
        shown_rows(before + after, room) == shown_rows(before, room),
    decreases before.len(),
{
    let all = before + after;
    if room >= 0 {
        let tail = before.drop_first();
        assert(before[0].rows is Formatted);
        assert(all_formatted(tail)) by {
            assert forall|i: int| 0 <= i < tail.len() implies tail[i].rows is Formatted by {
                assert(tail[i] == before[i + 1]);
            }
        }
        assert(all[0] == before[0]);
        assert(all.drop_first() =~= tail + after);
        match before[0].rows {
            BatchRows::Formatted(rows) => {
                law_batches_beyond_cut_ignored(tail, after, room - rows.len());
            },
            BatchRows::Unformattable { .. } => {},
        }
    }
}

} // verus!
