//! A scanner over fixed-size pages of records, shared by the tables that are
//! laid out in pages.
use vstd::prelude::*;
use vstd::slice::slice_subrange;

use crate::error::FormatError;

verus! {

/// A record that can be read from a page at a byte position.
pub trait PageRecord: Sized {
    /// How many bytes the record at `pos` takes, or `None` where no record
    /// can be read there.
    spec fn spec_size_at(page: Seq<u8>, pos: int) -> Option<nat>;

    /// Whether this record holds the fields stored at `pos`.
    spec fn spec_decoded(&self, page: Seq<u8>, pos: int) -> bool;

    /// Whether the record stored at `pos` marks the end of the table.
    spec fn spec_end_at(page: Seq<u8>, pos: int) -> bool;

    /// Reads the record at `pos`, with the position just after it.
    fn decode_at(page: &[u8], pos: usize) -> (r: Option<(Self, usize)>)
        requires
            pos <= page@.len(),
        ensures
            match r {
                None => Self::spec_size_at(page@, pos as int) is None,
                Some((rec, next)) => {
                    &&& Self::spec_size_at(page@, pos as int) == Some((next - pos) as nat)
                    &&& pos < next <= page@.len()
                    &&& rec.spec_decoded(page@, pos as int)
                },
            },
    ;

    /// Whether the record stored at `pos` marks the end of the table.
    fn end_at(page: &[u8], pos: usize) -> (b: bool)
        requires
            Self::spec_size_at(page@, pos as int) is Some,
        ensures
            b == Self::spec_end_at(page@, pos as int),
    ;
}

/// When a scan stops.
#[derive(Debug, Clone, Copy, PartialEq, Eq, Structural)]
pub enum ScanPolicy {
    /// Exactly this many pages; a page cut short is a truncated table.
    ExactPages(u32),
    /// Until a page is cut short or a record marks the end.
    UntilShortPageOrEnd,
}

/// The positions of the records read greedily from `pos` on, until no record
/// can be read.
pub open spec fn record_starts<R: PageRecord>(page: Seq<u8>, pos: int) -> Seq<int>
    decreases page.len() - pos,
{
    if pos < 0 || pos > page.len() {
        Seq::empty()
    } else {
        match R::spec_size_at(page, pos) {
            None => Seq::empty(),
            Some(k) => {
                if k == 0 || pos + k > page.len() {
                    Seq::empty()
                } else {
                    seq![pos] + record_starts::<R>(page, pos + k)
                }
            },
        }
    }
}

/// The bytes of page `p` of a table that starts at `start`.
pub open spec fn page_of(data: Seq<u8>, start: int, ps: int, p: int) -> Seq<u8> {
    data.subrange(start + p * ps, start + (p + 1) * ps)
}

/// The (page, position) of each record of the first `np` pages, in page
/// order, then in order within a page.
pub open spec fn table_locations<R: PageRecord>(data: Seq<u8>, start: int, ps: int, np: nat) -> Seq<
    (int, int),
>
    decreases np,
{
    if np == 0 {
        Seq::empty()
    } else {
        let p = np - 1;
        table_locations::<R>(data, start, ps, p as nat) + record_starts::<R>(
            page_of(data, start, ps, p),
            0,
        ).map_values(|q: int| (p, q))
    }
}

/// The number of whole pages in `avail` bytes.
pub open spec fn whole_pages(avail: int, ps: int) -> nat
    decreases avail,
{
    if ps <= 0 || avail < ps {
        0
    } else {
        1 + whole_pages(avail - ps, ps)
    }
}

/// The index of the first `true`, or the length if there is none.
pub open spec fn first_true(s: Seq<bool>) -> nat
    decreases s.len(),
{
    if s.len() == 0 {
        0
    } else if s[0] {
        0
    } else {
        1 + first_true(s.drop_first())
    }
}

/// For each record position of a page, whether its record marks the end.
pub open spec fn page_marks<R: PageRecord>(page: Seq<u8>, starts: Seq<int>) -> Seq<bool> {
    starts.map_values(|q: int| R::spec_end_at(page, q))
}

/// For each table location, whether its record marks the end.
pub open spec fn table_marks<R: PageRecord>(
    data: Seq<u8>,
    start: int,
    ps: int,
    locs: Seq<(int, int)>,
) -> Seq<bool> {
    locs.map_values(|l: (int, int)| R::spec_end_at(page_of(data, start, ps, l.0), l.1))
}

/// Whether `out` holds one record for each location, in the same order.
pub open spec fn records_at<R: PageRecord>(
    data: Seq<u8>,
    start: int,
    ps: int,
    locs: Seq<(int, int)>,
    out: Seq<R>,
) -> bool {
    &&& out.len() == locs.len()
    &&& forall|i: int|
        0 <= i < out.len() ==> #[trigger] out[i].spec_decoded(
            page_of(data, start, ps, locs[i].0),
            locs[i].1,
        )
}

/// The locations whose records a scan under `policy` returns, or the error it
/// fails with.
pub open spec fn scan_locations<R: PageRecord>(
    data: Seq<u8>,
    start: int,
    ps: int,
    policy: ScanPolicy,
) -> Result<Seq<(int, int)>, FormatError> {
    match policy {
        ScanPolicy::ExactPages(np) => {
            if data.len() < start + np * ps {
                Err(FormatError::Truncated)
            } else {
                Ok(table_locations::<R>(data, start, ps, np as nat))
            }
        },
        ScanPolicy::UntilShortPageOrEnd => {
            let locs = table_locations::<R>(
                data,
                start,
                ps,
                whole_pages(data.len() - start, ps),
            );
            Ok(locs.take(first_true(table_marks::<R>(data, start, ps, locs)) as int))
        },
    }
}

proof fn lemma_first_true_concat(a: Seq<bool>, b: Seq<bool>)
    ensures
        first_true(a + b) == if first_true(a) < a.len() {
            first_true(a)
        } else {
            a.len() + first_true(b)
        },
        first_true(a) <= a.len(),
    decreases a.len(),
{
    if a.len() == 0 {
        assert(a + b =~= b);
    } else {
        assert((a + b).drop_first() =~= a.drop_first() + b);
        lemma_first_true_concat(a.drop_first(), b);
    }
}

/// Reads the records of one page greedily from its start. Where `stop_at_end`
/// holds it stops before the first record that marks the end and says so.
fn scan_page<R: PageRecord>(page: &[u8], out: &mut Vec<R>, stop_at_end: bool) -> (ended: bool)
    ensures
        ({
            let starts = record_starts::<R>(page@, 0);
            let k = if stop_at_end {
                first_true(page_marks::<R>(page@, starts))
            } else {
                starts.len()
            };
            &&& k <= starts.len()
            &&& final(out)@.len() == old(out)@.len() + k
            &&& forall|i: int| 0 <= i < old(out)@.len() ==> final(out)@[i] == old(out)@[i]
            &&& forall|i: int|
                0 <= i < k ==> #[trigger] final(out)@[old(out)@.len() + i].spec_decoded(
                    page@,
                    starts[i],
                )
            &&& ended == (k < starts.len())
        }),
{
    let ghost old_out = out@;
    let ghost starts = record_starts::<R>(page@, 0);
    let ghost mut done: Seq<int> = Seq::empty();
    let mut pos: usize = 0;
    loop
        invariant
            pos <= page@.len(),
            old_out == old(out)@,
            starts == record_starts::<R>(page@, 0),
            starts == done + record_starts::<R>(page@, pos as int),
            out@.len() == old_out.len() + done.len(),
            forall|i: int| 0 <= i < old_out.len() ==> out@[i] == old_out[i],
            forall|i: int|
                0 <= i < done.len() ==> #[trigger] out@[old_out.len() + i].spec_decoded(
                    page@,
                    done[i],
                ),
            stop_at_end ==> first_true(page_marks::<R>(page@, done)) == done.len(),
        decreases page@.len() - pos,
    {
        match R::decode_at(page, pos) {
            None => {
                assert(record_starts::<R>(page@, pos as int) =~= Seq::<int>::empty());
                assert(starts =~= done);
                assert(stop_at_end ==> first_true(page_marks::<R>(page@, starts)) == starts.len());
                return false;
            },
            Some((rec, next)) => {
                let ghost rest = record_starts::<R>(page@, next as int);
                assert(record_starts::<R>(page@, pos as int) == seq![pos as int] + rest);
                let at_end = if stop_at_end {
                    R::end_at(page, pos)
                } else {
                    false
                };
                if at_end {
                    proof {
                        assert(starts =~= done + (seq![pos as int] + rest));
                        assert(page_marks::<R>(page@, starts) =~= page_marks::<R>(page@, done)
                            + page_marks::<R>(page@, seq![pos as int] + rest));
                        lemma_first_true_concat(
                            page_marks::<R>(page@, done),
                            page_marks::<R>(page@, seq![pos as int] + rest),
                        );
                    }
                    return true;
                }
                let ghost before = out@;
                out.push(rec);
                proof {
                    let d2 = done.push(pos as int);
                    assert(starts =~= d2 + rest);
                    if stop_at_end {
                        assert(!R::spec_end_at(page@, pos as int));
                        assert(page_marks::<R>(page@, d2) =~= page_marks::<R>(page@, done)
                            + seq![false]);
                        lemma_first_true_concat(page_marks::<R>(page@, done), seq![false]);
                        assert(seq![false].drop_first() =~= Seq::<bool>::empty());
                        assert(first_true(Seq::<bool>::empty()) == 0);
                        assert(first_true(seq![false]) == 1);
                        assert(page_marks::<R>(page@, done).len() == done.len());
                        assert(first_true(page_marks::<R>(page@, d2)) == d2.len());
                    }
                    assert forall|i: int| 0 <= i < d2.len() implies #[trigger] out@[old_out.len()
                        + i].spec_decoded(page@, d2[i]) by {
                        if i < done.len() {
                            assert(out@[old_out.len() + i] == before[old_out.len() + i]);
                        }
                    }
                    done = d2;
                }
                pos = next;
            },
        }
    }
}

/// The first `true` is no later than any `true`, and every entry before it is
/// `false`.
pub proof fn lemma_first_true_bounds(s: Seq<bool>)
    ensures
        first_true(s) <= s.len(),
        forall|j: int| 0 <= j < s.len() && s[j] ==> first_true(s) <= j,
        forall|i: int| 0 <= i < first_true(s) ==> !s[i],
    decreases s.len(),
{
    if s.len() > 0 && !s[0] {
        lemma_first_true_bounds(s.drop_first());
        assert forall|j: int| 0 <= j < s.len() && s[j] implies first_true(s) <= j by {
            if j > 0 {
                assert(s.drop_first()[j - 1] == s[j]);
            }
        }
        assert forall|i: int| 0 <= i < first_true(s) implies !s[i] by {
            if i > 0 {
                assert(s.drop_first()[i - 1] == s[i]);
            }
        }
    }
}

/// Every location of the first `np` pages lies on one of those pages.
pub proof fn lemma_locations_pages<R: PageRecord>(data: Seq<u8>, start: int, ps: int, np: nat)
    ensures
        forall|i: int|
            0 <= i < table_locations::<R>(data, start, ps, np).len() ==> 0 <= (
            #[trigger] table_locations::<R>(data, start, ps, np)[i]).0 < np,
    decreases np,
{
    if np > 0 {
        lemma_locations_pages::<R>(data, start, ps, (np - 1) as nat);
        let prev = table_locations::<R>(data, start, ps, (np - 1) as nat);
        let p = np - 1;
        let tail = record_starts::<R>(page_of(data, start, ps, p), 0).map_values(
            |q: int| (p, q),
        );
        assert forall|i: int|
            0 <= i < table_locations::<R>(data, start, ps, np).len() implies 0 <= (
        #[trigger] table_locations::<R>(data, start, ps, np)[i]).0 < np by {
            if i >= prev.len() {
                assert(table_locations::<R>(data, start, ps, np)[i] == tail[i - prev.len()]);
            } else {
                assert(table_locations::<R>(data, start, ps, np)[i] == prev[i]);
            }
        }
    }
}

/// Two byte sequences whose first `np` pages agree have the same locations
/// and the same end marks there.
pub proof fn lemma_locations_agree<R: PageRecord>(
    d1: Seq<u8>,
    d2: Seq<u8>,
    start: int,
    ps: int,
    np: nat,
)
    requires
        forall|p: int| 0 <= p < np ==> #[trigger] page_of(d1, start, ps, p) == page_of(d2, start, ps, p),
    ensures
        table_locations::<R>(d1, start, ps, np) == table_locations::<R>(d2, start, ps, np),
        table_marks::<R>(d1, start, ps, table_locations::<R>(d1, start, ps, np)) == table_marks::<R>(
            d2,
            start,
            ps,
            table_locations::<R>(d1, start, ps, np),
        ),
    decreases np,
{
    if np > 0 {
        lemma_locations_agree::<R>(d1, d2, start, ps, (np - 1) as nat);
        assert(page_of(d1, start, ps, np - 1) == page_of(d2, start, ps, np - 1));
    }
    let locs = table_locations::<R>(d1, start, ps, np);
    lemma_locations_pages::<R>(d1, start, ps, np);
    assert forall|i: int| 0 <= i < locs.len() implies #[trigger] table_marks::<R>(
        d1,
        start,
        ps,
        locs,
    )[i] == table_marks::<R>(d2, start, ps, locs)[i] by {
        assert(page_of(d1, start, ps, locs[i].0) == page_of(d2, start, ps, locs[i].0));
    }
    assert(table_marks::<R>(d1, start, ps, locs) =~= table_marks::<R>(d2, start, ps, locs));
}

proof fn lemma_page_step(p: int, np: int, ps: int)
    requires
        0 <= p < np,
        0 <= ps,
    ensures
        (p + 1) * ps == p * ps + ps,
        (p + 1) * ps <= np * ps,
        0 <= p * ps,
{
    assert((p + 1) * ps == p * ps + ps) by (nonlinear_arith);
    assert((p + 1) * ps <= np * ps) by (nonlinear_arith)
        requires
            p + 1 <= np,
            0 <= ps,
    ;
    assert(0 <= p * ps) by (nonlinear_arith)
        requires
            0 <= p,
            0 <= ps,
    ;
}

proof fn lemma_locations_prefix<R: PageRecord>(data: Seq<u8>, start: int, ps: int, p: nat, q: nat)
    requires
        p <= q,
    ensures
        table_locations::<R>(data, start, ps, q) =~= table_locations::<R>(data, start, ps, p)
            + table_locations::<R>(data, start, ps, q).skip(
            table_locations::<R>(data, start, ps, p).len() as int,
        ),
        table_locations::<R>(data, start, ps, p).len() <= table_locations::<R>(
            data,
            start,
            ps,
            q,
        ).len(),
    decreases q,
{
    if p < q {
        lemma_locations_prefix::<R>(data, start, ps, p, (q - 1) as nat);
    }
}

proof fn lemma_marks_concat<R: PageRecord>(
    data: Seq<u8>,
    start: int,
    ps: int,
    a: Seq<(int, int)>,
    b: Seq<(int, int)>,
)
    ensures
        table_marks::<R>(data, start, ps, a + b) =~= table_marks::<R>(data, start, ps, a)
            + table_marks::<R>(data, start, ps, b),
{
}

/// The records of one page appended after those of the pages before it.
proof fn lemma_append_page<R: PageRecord>(
    data: Seq<u8>,
    start: int,
    ps: int,
    p: nat,
    page: Seq<u8>,
    before: Seq<R>,
    after: Seq<R>,
    k: nat,
)
    requires
        page == page_of(data, start, ps, p as int),
        records_at::<R>(data, start, ps, table_locations::<R>(data, start, ps, p), before),
        k <= record_starts::<R>(page, 0).len(),
        after.len() == before.len() + k,
        forall|i: int| 0 <= i < before.len() ==> after[i] == before[i],
        forall|i: int|
            0 <= i < k ==> #[trigger] after[before.len() + i].spec_decoded(
                page,
                record_starts::<R>(page, 0)[i],
            ),
    ensures
        records_at::<R>(
            data,
            start,
            ps,
            table_locations::<R>(data, start, ps, p + 1).take((before.len() + k) as int),
            after,
        ),
        table_locations::<R>(data, start, ps, p + 1).len() == before.len() + record_starts::<R>(
            page,
            0,
        ).len(),
{
    let locs = table_locations::<R>(data, start, ps, p + 1);
    let prev = table_locations::<R>(data, start, ps, p);
    let starts = record_starts::<R>(page, 0);
    assert(locs == prev + starts.map_values(|q: int| (p as int, q)));
    let kept = locs.take((before.len() + k) as int);
    assert forall|i: int| 0 <= i < after.len() implies #[trigger] after[i].spec_decoded(
        page_of(data, start, ps, kept[i].0),
        kept[i].1,
    ) by {
        if i < before.len() {
            assert(before[i].spec_decoded(page_of(data, start, ps, prev[i].0), prev[i].1));
        } else {
            let j = i - before.len();
            assert(after[before.len() + j].spec_decoded(page, starts[j]));
        }
    }
}

/// Reads exactly `np` pages of `ps` bytes from `start` on, each greedily.
fn scan_exact<R: PageRecord>(data: &[u8], start: usize, ps: usize, np: u32) -> (r: Result<
    Vec<R>,
    FormatError,
>)
    requires
        start <= data@.len(),
    ensures
        match r {
            Ok(out) => scan_locations::<R>(
                data@,
                start as int,
                ps as int,
                ScanPolicy::ExactPages(np),
            ) matches Ok(locs) && records_at::<R>(data@, start as int, ps as int, locs, out@),
            Err(e) => scan_locations::<R>(data@, start as int, ps as int, ScanPolicy::ExactPages(np))
                == Err::<Seq<(int, int)>, FormatError>(e),
        },
{
    let mut out: Vec<R> = Vec::new();
    let mut off: usize = start;
    let mut p: u32 = 0;
    while p < np
        invariant
            start <= off <= data@.len(),
            p <= np,
            off == start + p * ps,
            records_at::<R>(
                data@,
                start as int,
                ps as int,
                table_locations::<R>(data@, start as int, ps as int, p as nat),
                out@,
            ),
        decreases np - p,
    {
        proof {
            lemma_page_step(p as int, np as int, ps as int);
        }
        if data.len() - off < ps {
            return Err(FormatError::Truncated);
        }
        let page = slice_subrange(data, off, off + ps);
        let ghost before = out@;
        scan_page(page, &mut out, false);
        proof {
            lemma_append_page::<R>(
                data@,
                start as int,
                ps as int,
                p as nat,
                page@,
                before,
                out@,
                record_starts::<R>(page@, 0).len(),
            );
            let locs = table_locations::<R>(data@, start as int, ps as int, p as nat + 1);
            assert(locs.take(locs.len() as int) =~= locs);
        }
        off = off + ps;
        p = p + 1;
    }
    Ok(out)
}

/// Reads whole pages of `ps` bytes from `start` on, each greedily, until the
/// bytes left do not fill a page or a record marks the end.
fn scan_until_end<R: PageRecord>(data: &[u8], start: usize, ps: usize) -> (r: Vec<R>)
    requires
        start <= data@.len(),
        ps > 0,
    ensures
        scan_locations::<R>(data@, start as int, ps as int, ScanPolicy::UntilShortPageOrEnd) matches Ok(
            locs,
        ) && records_at::<R>(data@, start as int, ps as int, locs, r@),
{
    let ghost w = whole_pages(data@.len() - start, ps as int);
    let ghost total = table_locations::<R>(data@, start as int, ps as int, w);
    let mut out: Vec<R> = Vec::new();
    let mut off: usize = start;
    let ghost mut p: nat = 0;
    loop
        invariant
            start <= off <= data@.len(),
            ps > 0,
            off == start + p * ps,
            w == whole_pages(data@.len() - start, ps as int),
            total == table_locations::<R>(data@, start as int, ps as int, w),
            w == p + whole_pages(data@.len() - off, ps as int),
            records_at::<R>(
                data@,
                start as int,
                ps as int,
                table_locations::<R>(data@, start as int, ps as int, p as nat),
                out@,
            ),
            first_true(
                table_marks::<R>(
                    data@,
                    start as int,
                    ps as int,
                    table_locations::<R>(data@, start as int, ps as int, p as nat),
                ),
            ) == table_locations::<R>(data@, start as int, ps as int, p as nat).len(),
        decreases data@.len() - off,
    {
        let ghost prev = table_locations::<R>(data@, start as int, ps as int, p as nat);
        if data.len() - off < ps {
            proof {
                assert(w == p);
                assert(prev.take(prev.len() as int) =~= prev);
            }
            return out;
        }
        proof {
            lemma_page_step(p as int, p as int + 1, ps as int);
        }
        let page = slice_subrange(data, off, off + ps);
        let ghost before = out@;
        let ended = scan_page(page, &mut out, true);
        let ghost starts = record_starts::<R>(page@, 0);
        let ghost k = first_true(page_marks::<R>(page@, starts));
        let ghost next = table_locations::<R>(data@, start as int, ps as int, p as nat + 1);
        proof {
            lemma_append_page::<R>(
                data@,
                start as int,
                ps as int,
                p as nat,
                page@,
                before,
                out@,
                k,
            );
            let tail = starts.map_values(|q: int| (p as int, q));
            assert(next == prev + tail);
            lemma_marks_concat::<R>(data@, start as int, ps as int, prev, tail);
            assert(table_marks::<R>(data@, start as int, ps as int, tail) =~= page_marks::<R>(
                page@,
                starts,
            ));
            lemma_first_true_concat(
                table_marks::<R>(data@, start as int, ps as int, prev),
                table_marks::<R>(data@, start as int, ps as int, tail),
            );
        }
        if ended {
            proof {
                lemma_locations_prefix::<R>(data@, start as int, ps as int, p as nat + 1, w);
                let rest = total.skip(next.len() as int);
                lemma_marks_concat::<R>(data@, start as int, ps as int, next, rest);
                lemma_first_true_concat(
                    table_marks::<R>(data@, start as int, ps as int, next),
                    table_marks::<R>(data@, start as int, ps as int, rest),
                );
                assert(total.take((prev.len() + k) as int) =~= next.take((prev.len() + k) as int));
            }
            return out;
        }
        proof {
            assert(next.take(next.len() as int) =~= next);
        }
        off = off + ps;
        proof {
            p = p + 1;
        }
    }
}

/// Reads the records of a paged table that starts at `start`, pages of
/// `page_size` bytes, stopping as `policy` says.
pub fn scan_pages<R: PageRecord>(data: &[u8], start: usize, page_size: usize, policy: ScanPolicy) -> (r:
    Result<Vec<R>, FormatError>)
    requires
        start <= data@.len(),
        policy is UntilShortPageOrEnd ==> page_size > 0,
    ensures
        match r {
            Ok(out) => scan_locations::<R>(
                data@,
                start as int,
                page_size as int,
                policy,
            ) matches Ok(locs) && records_at::<R>(
                data@,
                start as int,
                page_size as int,
                locs,
                out@,
            ),
            Err(e) => scan_locations::<R>(data@, start as int, page_size as int, policy) == Err::<
                Seq<(int, int)>,
                FormatError,
            >(e),
        },
{
    match policy {
        ScanPolicy::ExactPages(np) => scan_exact(data, start, page_size, np),
        ScanPolicy::UntilShortPageOrEnd => Ok(scan_until_end(data, start, page_size)),
    }
}

} // verus!
