//! Exports: the rows of one domain, or all rows, newest date first, with a
//! summary of distinct pages, total views and row count.
use vstd::prelude::*;
use crate::store::PageviewAggregate;

verus! {

broadcast use {vstd::seq_lib::group_to_multiset_ensures, vstd::multiset::group_multiset_properties};

/// Totals over the rows of an export.
#[derive(Clone, Copy, Debug, PartialEq, Eq, Structural)]
pub struct Summary {
    pub unique_pages: usize,
    pub total_views: u128,
    pub total_records: usize,
}

/// The result of an export: its summary and its rows.
#[derive(Debug)]
pub struct ExportResult {
    pub summary: Summary,
    pub pageviews: Vec<PageviewAggregate>,
}

/// A row is kept by the filter: there is none, or the row's domain is it.
pub open spec fn keeps(filter: Option<Seq<char>>, r: PageviewAggregate) -> bool {
    match filter {
        Some(d) => r.domain@ == d,
        None => true,
    }
}

/// The rows of `rows` that the filter keeps, in their order.
pub open spec fn selected(rows: Seq<PageviewAggregate>, filter: Option<Seq<char>>) -> Seq<PageviewAggregate>
    decreases rows.len(),
{
    if rows.len() == 0 {
        rows
    } else {
        let rest = selected(rows.drop_last(), filter);
        if keeps(filter, rows.last()) { rest.push(rows.last()) } else { rest }
    }
}

/// Each row's date is the same as or later than the next row's.
pub open spec fn newest_first(rows: Seq<PageviewAggregate>) -> bool {
    forall|i: int, j: int| 0 <= i < j < rows.len() ==> rows[i].date.on_or_after(rows[j].date)
}

/// The sum of the view counts of `rows`.
pub open spec fn total_views(rows: Seq<PageviewAggregate>) -> int
    decreases rows.len(),
{
    if rows.len() == 0 {
        0
    } else {
        total_views(rows.drop_last()) + rows.last().view_count
    }
}

/// The pages that occur among `rows`.
pub open spec fn pages(rows: Seq<PageviewAggregate>) -> Set<Seq<char>> {
    Set::new(|p: Seq<char>| exists|i: int| 0 <= i < rows.len() && rows[i].page@ == p)
}

/// The summary of `rows`.
pub open spec fn summary_of(rows: Seq<PageviewAggregate>) -> Summary {
    Summary {
        unique_pages: pages(rows).len() as usize,
        total_views: total_views(rows) as u128,
        total_records: rows.len() as usize,
    }
}

proof fn lemma_pages_push(rows: Seq<PageviewAggregate>, r: PageviewAggregate)
    ensures
        pages(rows.push(r)) == pages(rows).insert(r.page@),
{
    let a = pages(rows.push(r));
    let b = pages(rows).insert(r.page@);
    assert forall|p: Seq<char>| a.contains(p) == b.contains(p) by {
        if a.contains(p) {
            let i = choose|i: int| 0 <= i < rows.len() + 1 && rows.push(r)[i].page@ == p;
            if i < rows.len() {
                assert(rows.push(r)[i] == rows[i]);
            }
        }
        if pages(rows).contains(p) {
            let i = choose|i: int| 0 <= i < rows.len() && rows[i].page@ == p;
            assert(rows.push(r)[i] == rows[i]);
        }
        if p == r.page@ {
            assert(rows.push(r)[rows.len() as int] == r);
        }
    }
    assert(a =~= b);
}

/// The rows that the filter keeps, in no particular order.
fn select_rows(rows: Vec<PageviewAggregate>, filter: &Option<String>) -> (r: Vec<PageviewAggregate>)
    ensures
        r@.to_multiset() == selected(rows@, filter_view(filter)).to_multiset(),
{
    let ghost all = rows@;
    let ghost f = filter_view(filter);
    let mut rest = rows;
    let mut out: Vec<PageviewAggregate> = Vec::new();
    while rest.len() > 0
        invariant
            f == filter_view(filter),
            selected(rest@, f).to_multiset().add(out@.to_multiset()) == selected(all, f).to_multiset(),
        decreases rest@.len(),
    {
        let ghost before = rest@;
        let row = rest.pop().unwrap();
        proof {
            assert(before.drop_last() =~= rest@);
            assert(before.last() == row);
        }
        let keep = match filter {
            Some(d) => row.domain == *d,
            None => true,
        };
        proof {
            assert(keep == keeps(f, row));
        }
        if keep {
            proof {
                assert(selected(before, f) == selected(rest@, f).push(row));
            }
            out.push(row);
            proof {
                assert(selected(before, f).to_multiset() == selected(rest@, f).to_multiset().insert(row));
            }
        } else {
            proof {
                assert(selected(before, f) == selected(rest@, f));
            }
        }
    }
    proof {
        assert(selected(rest@, f) =~= Seq::<PageviewAggregate>::empty());
    }
    out
}

pub open spec fn filter_view(v: &Option<String>) -> Option<Seq<char>> {
    match v {
        Some(s) => Some(s@),
        None => None,
    }
}

/// The rows ordered newest date first.
fn sort_newest_first(rows: Vec<PageviewAggregate>) -> (r: Vec<PageviewAggregate>)
    ensures
        r@.to_multiset() == rows@.to_multiset(),
        newest_first(r@),
{
    let ghost all = rows@;
    let mut rest = rows;
    let mut out: Vec<PageviewAggregate> = Vec::new();
    while rest.len() > 0
        invariant
            rest@.to_multiset().add(out@.to_multiset()) == all.to_multiset(),
            newest_first(out@),
        decreases rest@.len(),
    {
        let ghost before = rest@;
        let row = rest.pop().unwrap();
        proof {
            assert(before =~= rest@.push(row));
        }
        let mut j: usize = 0;
        while j < out.len() && out[j].date.is_on_or_after(&row.date)
            invariant
                j <= out@.len(),
                forall|k: int| 0 <= k < j ==> out@[k].date.on_or_after(row.date),
            decreases out@.len() - j,
        {
            j = j + 1;
        }
        let ghost o = out@;
        out.insert(j, row);
        proof {
            assert forall|a: int, b: int| 0 <= a < b < out@.len() implies out@[a].date.on_or_after(out@[b].date) by {
                if b < j {
                } else if a < j && b == j {
                } else if a < j {
                    assert(out@[b] == o[b - 1]);
                } else if a == j {
                    assert(out@[b] == o[b - 1]);
                    assert(!o[j as int].date.on_or_after(row.date));
                    assert(o[j as int].date.on_or_after(o[b - 1].date) || b - 1 == j);
                } else {
                    assert(out@[a] == o[a - 1]);
                    assert(out@[b] == o[b - 1]);
                }
            }
        }
    }
    proof {
        assert(rest@ =~= Seq::<PageviewAggregate>::empty());
    }
    out
}

/// A filter on a domain selects rows of that domain only, and every such
/// row; no filter selects every row.
pub proof fn law_filter_selects_domain(rows: Seq<PageviewAggregate>, filter: Option<Seq<char>>)
    ensures
        forall|r: PageviewAggregate| selected(rows, filter).contains(r) <==> rows.contains(r) && keeps(filter, r),
        filter is None ==> selected(rows, filter) == rows,
    decreases rows.len(),
{
    if rows.len() > 0 {
        let p = rows.drop_last();
        law_filter_selects_domain(p, filter);
        assert(rows == p.push(rows.last()));
        assert forall|r: PageviewAggregate| selected(rows, filter).contains(r) <==> rows.contains(r) && keeps(filter, r) by {
            if rows.contains(r) && r != rows.last() {
                let i = choose|i: int| 0 <= i < rows.len() && rows[i] == r;
                assert(p[i] == r);
            }
            if p.contains(r) {
                let i = choose|i: int| 0 <= i < p.len() && p[i] == r;
                assert(rows[i] == r);
            }
            if keeps(filter, rows.last()) {
                let q = selected(p, filter);
                assert(q.push(rows.last())[q.len() as int] == rows.last());
                if q.contains(r) {
                    let i = choose|i: int| 0 <= i < q.len() && q[i] == r;
                    assert(q.push(rows.last())[i] == r);
                }
                if q.push(rows.last()).contains(r) && r != rows.last() {
                    let i = choose|i: int| 0 <= i < q.len() + 1 && q.push(rows.last())[i] == r;
                    assert(q[i] == r);
                }
            }
            assert(rows[rows.len() - 1] == rows.last());
        }
    } else {
        assert(selected(rows, filter) == rows);
    }
}

/// The summary of `rows`: distinct pages, total views and row count.
pub fn summarize(rows: &Vec<PageviewAggregate>) -> (r: Summary)
    ensures
        r == summary_of(rows@),
{
    let mut total: u128 = 0;
    let mut seen: Vec<String> = Vec::new();
    let mut i: usize = 0;
    while i < rows.len()
        invariant
            i <= rows@.len(),
            total as int == total_views(rows@.subrange(0, i as int)),
            total as int <= i * 0xFFFF_FFFF_FFFF_FFFF,
            seen@.map_values(|s: String| s@).no_duplicates(),
            seen@.map_values(|s: String| s@).to_set() == pages(rows@.subrange(0, i as int)),
        decreases rows@.len() - i,
    {
        let row = &rows[i];
        let ghost prefix = rows@.subrange(0, i as int);
        let ghost next = rows@.subrange(0, i + 1);
        proof {
            assert(next =~= prefix.push(*row));
            assert(next.drop_last() =~= prefix);
            lemma_pages_push(prefix, *row);
            assert((i + 1) * 0xFFFF_FFFF_FFFF_FFFF == i * 0xFFFF_FFFF_FFFF_FFFF + 0xFFFF_FFFF_FFFF_FFFF) by (nonlinear_arith);
            assert((i + 1) * 0xFFFF_FFFF_FFFF_FFFF <= 0xFFFF_FFFF_FFFF_FFFF_FFFF_FFFF_FFFF_FFFF) by (nonlinear_arith)
                requires i + 1 <= 0x1_0000_0000_0000_0000;
        }
        total = total + row.view_count as u128;
        let ghost sv = seen@.map_values(|s: String| s@);
        let mut found = false;
        let mut j: usize = 0;
        while j < seen.len()
            invariant
                j <= seen@.len(),
                found == exists|k: int| 0 <= k < j && seen@[k]@ == row.page@,
            decreases seen@.len() - j,
        {
            if seen[j] == row.page {
                found = true;
            }
            j = j + 1;
        }
        if !found {
            seen.push(row.page.clone());
            proof {
                assert(seen@.map_values(|s: String| s@) =~= sv.push(row.page@));
                assert(!sv.contains(row.page@)) by {
                    if sv.contains(row.page@) {
                        let k = choose|k: int| 0 <= k < sv.len() && sv[k] == row.page@;
                        assert(seen@[k]@ == row.page@);
                    }
                }
                sv.lemma_push_to_set_commute(row.page@);
            }
        } else {
            proof {
                let k = choose|k: int| 0 <= k < j && seen@[k]@ == row.page@;
                assert(sv[k] == row.page@);
                assert(sv.to_set().contains(row.page@));
                assert(sv.to_set().insert(row.page@) =~= sv.to_set());
            }
        }
        i = i + 1;
    }
    proof {
        assert(rows@.subrange(0, rows@.len() as int) =~= rows@);
        seen@.map_values(|s: String| s@).unique_seq_to_set();
    }
    Summary { unique_pages: seen.len(), total_views: total, total_records: rows.len() }
}

/// Exports the rows whose domain is `filter_domain`, or all rows where it is
/// `None`: newest date first (rows of one date in no particular order),
/// with their summary.
pub fn export(rows: Vec<PageviewAggregate>, filter_domain: Option<String>) -> (r: ExportResult)
    ensures
        r.pageviews@.to_multiset() == selected(rows@, filter_view(&filter_domain)).to_multiset(),
        newest_first(r.pageviews@),
        r.summary == summary_of(r.pageviews@),
{
    let picked = select_rows(rows, &filter_domain);
    let pageviews = sort_newest_first(picked);
    let summary = summarize(&pageviews);
    ExportResult { summary, pageviews }
}

} // verus!
