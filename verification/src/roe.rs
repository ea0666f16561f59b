//! The per-fund return-on-equity aggregate built from the returns report:
//! the yearly sub-table creates one record per row, the daily sub-table
//! fills in the periodic figures by fund name.  A figure the bank did not
//! publish stays `NA` — unknown, never zero.

use vstd::prelude::*;
use crate::percent::Percent;

verus! {

/// The merged ROE record of one fund, as the report export wants it.
pub struct FundAggregate {
    pub fund: String,
    pub roe_next_to_last_year: Percent,
    pub roe_last_year: Percent,
    pub roe_year_to_date: Percent,
    pub roe_day: Percent,
    pub roe_day_annualized: Percent,
    pub roe_month: Percent,
    pub roe_trimester: Percent,
    pub roe_semester: Percent,
    pub roe_year: Percent,
    pub roe_2_years: Percent,
    pub roe_total: Percent,
}

#[verifier::ext_equal]
pub ghost struct FundAggregateModel {
    pub fund: Seq<char>,
    pub roe_next_to_last_year: Option<Seq<char>>,
    pub roe_last_year: Option<Seq<char>>,
    pub roe_year_to_date: Option<Seq<char>>,
    pub roe_day: Option<Seq<char>>,
    pub roe_day_annualized: Option<Seq<char>>,
    pub roe_month: Option<Seq<char>>,
    pub roe_trimester: Option<Seq<char>>,
    pub roe_semester: Option<Seq<char>>,
    pub roe_year: Option<Seq<char>>,
    pub roe_2_years: Option<Seq<char>>,
    pub roe_total: Option<Seq<char>>,
}

impl View for FundAggregate {
    type V = FundAggregateModel;

    open spec fn view(&self) -> FundAggregateModel {
        FundAggregateModel {
            fund: self.fund@,
            roe_next_to_last_year: self.roe_next_to_last_year@,
            roe_last_year: self.roe_last_year@,
            roe_year_to_date: self.roe_year_to_date@,
            roe_day: self.roe_day@,
            roe_day_annualized: self.roe_day_annualized@,
            roe_month: self.roe_month@,
            roe_trimester: self.roe_trimester@,
            roe_semester: self.roe_semester@,
            roe_year: self.roe_year@,
            roe_2_years: self.roe_2_years@,
            roe_total: self.roe_total@,
        }
    }
}

/// One row of the yearly sub-table.
pub struct YearlyRow {
    /// Normalised fund name.
    pub fund: String,
    pub roe_next_to_last_year: Percent,
    pub roe_last_year: Percent,
    pub roe_year_to_date: Percent,
}

pub ghost struct YearlyRowModel {
    pub fund: Seq<char>,
    pub roe_next_to_last_year: Option<Seq<char>>,
    pub roe_last_year: Option<Seq<char>>,
    pub roe_year_to_date: Option<Seq<char>>,
}

impl View for YearlyRow {
    type V = YearlyRowModel;

    open spec fn view(&self) -> YearlyRowModel {
        YearlyRowModel {
            fund: self.fund@,
            roe_next_to_last_year: self.roe_next_to_last_year@,
            roe_last_year: self.roe_last_year@,
            roe_year_to_date: self.roe_year_to_date@,
        }
    }
}

/// One row of the daily/periodic sub-table.
pub struct DailyRow {
    /// Normalised fund name.
    pub fund: String,
    pub roe_day: Percent,
    pub roe_day_annualized: Percent,
    pub roe_month: Percent,
    pub roe_trimester: Percent,
    pub roe_semester: Percent,
    pub roe_year: Percent,
    pub roe_2_years: Percent,
    pub roe_total: Percent,
}

pub ghost struct DailyRowModel {
    pub fund: Seq<char>,
    pub roe_day: Option<Seq<char>>,
    pub roe_day_annualized: Option<Seq<char>>,
    pub roe_month: Option<Seq<char>>,
    pub roe_trimester: Option<Seq<char>>,
    pub roe_semester: Option<Seq<char>>,
    pub roe_year: Option<Seq<char>>,
    pub roe_2_years: Option<Seq<char>>,
    pub roe_total: Option<Seq<char>>,
}

impl View for DailyRow {
    type V = DailyRowModel;

    open spec fn view(&self) -> DailyRowModel {
        DailyRowModel {
            fund: self.fund@,
            roe_day: self.roe_day@,
            roe_day_annualized: self.roe_day_annualized@,
            roe_month: self.roe_month@,
            roe_trimester: self.roe_trimester@,
            roe_semester: self.roe_semester@,
            roe_year: self.roe_year@,
            roe_2_years: self.roe_2_years@,
            roe_total: self.roe_total@,
        }
    }
}

/// The aggregate a yearly row creates: its three figures set, every other
/// figure `NA`.
pub open spec fn aggregate_of(r: YearlyRowModel) -> FundAggregateModel {
    FundAggregateModel {
        fund: r.fund,
        roe_next_to_last_year: r.roe_next_to_last_year,
        roe_last_year: r.roe_last_year,
        roe_year_to_date: r.roe_year_to_date,
        roe_day: None,
        roe_day_annualized: None,
        roe_month: None,
        roe_trimester: None,
        roe_semester: None,
        roe_year: None,
        roe_2_years: None,
        roe_total: None,
    }
}

/// Index of the first aggregate named `fund`, or -1.
pub open spec fn first_aggregate(aggs: Seq<FundAggregateModel>, fund: Seq<char>) -> int
    decreases aggs.len(),
{
    if aggs.len() == 0 {
        -1
    } else if aggs[0].fund == fund {
        0
    } else {
        let r = first_aggregate(aggs.drop_first(), fund);
        if r < 0 {
            -1
        } else {
            r + 1
        }
    }
}

proof fn lemma_first_aggregate_at(aggs: Seq<FundAggregateModel>, fund: Seq<char>, j: int)
    requires
        0 <= j < aggs.len(),
        aggs[j].fund == fund,
        forall|k: int| 0 <= k < j ==> aggs[k].fund != fund,
    ensures
        first_aggregate(aggs, fund) == j,
    decreases j,
{
    if j > 0 {
        lemma_first_aggregate_at(aggs.drop_first(), fund, j - 1);
    }
}

proof fn lemma_first_aggregate_none(aggs: Seq<FundAggregateModel>, fund: Seq<char>)
    requires
        forall|k: int| 0 <= k < aggs.len() ==> aggs[k].fund != fund,
    ensures
        first_aggregate(aggs, fund) == -1,
    decreases aggs.len(),
{
    if aggs.len() > 0 {
        lemma_first_aggregate_none(aggs.drop_first(), fund);
    }
}

/// An aggregate with its daily figures overwritten from a daily row.
pub open spec fn with_daily(a: FundAggregateModel, r: DailyRowModel) -> FundAggregateModel {
    FundAggregateModel {
        roe_day: r.roe_day,
        roe_day_annualized: r.roe_day_annualized,
        roe_month: r.roe_month,
        roe_trimester: r.roe_trimester,
        roe_semester: r.roe_semester,
        roe_year: r.roe_year,
        roe_2_years: r.roe_2_years,
        roe_total: r.roe_total,
        ..a
    }
}

/// Applying one daily row: fills the first matching aggregate, or does
/// nothing when the yearly sub-table named no such fund.
pub open spec fn apply_daily(
    aggs: Seq<FundAggregateModel>,
    r: DailyRowModel,
) -> Seq<FundAggregateModel> {
    let i = first_aggregate(aggs, r.fund);
    if i < 0 {
        aggs
    } else {
        aggs.update(i, with_daily(aggs[i], r))
    }
}

pub open spec fn apply_daily_rows_spec(
    aggs: Seq<FundAggregateModel>,
    rows: Seq<DailyRowModel>,
) -> Seq<FundAggregateModel>
    decreases rows.len(),
{
    if rows.len() == 0 {
        aggs
    } else {
        apply_daily_rows_spec(apply_daily(aggs, rows[0]), rows.drop_first())
    }
}

/// Builds one aggregate per yearly row, in report order.
pub fn build_aggregates(rows: &Vec<YearlyRow>) -> (aggs: Vec<FundAggregate>)
    ensures
        aggs@.map_values(|a: FundAggregate| a@) == rows@.map_values(
            |r: YearlyRow| aggregate_of(r@),
        ),
{
    let n = rows.len();
    let mut aggs: Vec<FundAggregate> = Vec::new();
    let mut i: usize = 0;
    proof {
        assert(aggs@.map_values(|a: FundAggregate| a@) =~= rows@.map_values(
            |r: YearlyRow| aggregate_of(r@),
        ).take(0));
    }
    while i < n
        invariant
            0 <= i <= n,
            n == rows@.len(),
            aggs@.map_values(|a: FundAggregate| a@) == rows@.map_values(
                |r: YearlyRow| aggregate_of(r@),
            ).take(i as int),
        decreases n - i,
    {
        let r = &rows[i];
        let a = FundAggregate {
            fund: r.fund.clone(),
            roe_next_to_last_year: r.roe_next_to_last_year.duplicate(),
            roe_last_year: r.roe_last_year.duplicate(),
            roe_year_to_date: r.roe_year_to_date.duplicate(),
            roe_day: Percent::Na,
            roe_day_annualized: Percent::Na,
            roe_month: Percent::Na,
            roe_trimester: Percent::Na,
            roe_semester: Percent::Na,
            roe_year: Percent::Na,
            roe_2_years: Percent::Na,
            roe_total: Percent::Na,
        };
        proof {
            assert(rows@[i as int] == *r);
            assert(a@ =~= aggregate_of(rows@[i as int]@));
        }
        let ghost pre_aggs = aggs@;
        let ghost am = a@;
        aggs.push(a);
        proof {
            let lhs = aggs@.map_values(|a2: FundAggregate| a2@);
            let target = rows@.map_values(|r2: YearlyRow| aggregate_of(r2@));
            assert(target.len() == rows@.len());
            assert(pre_aggs.map_values(|a2: FundAggregate| a2@) == target.take(i as int));
            assert(pre_aggs.map_values(|a2: FundAggregate| a2@).len() == pre_aggs.len());
            assert(target.take(i as int).len() == i);
            assert(pre_aggs.len() == i);
            assert(aggs@.len() == i + 1);
            assert forall|q: int| 0 <= q < i + 1 implies lhs[q] == target.take(i + 1)[q] by {
                assert(lhs[q] == aggs@[q]@);
                if q < i {
                    assert(aggs@[q] == pre_aggs[q]);
                    assert(pre_aggs.map_values(|a2: FundAggregate| a2@)[q] == pre_aggs[q]@);
                    assert(pre_aggs.map_values(|a2: FundAggregate| a2@)[q] == target.take(
                        i as int,
                    )[q]);
                } else {
                    assert(aggs@[q]@ == am);
                    assert(am == aggregate_of(rows@[q]@));
                    assert(target[q] == aggregate_of(rows@[q]@));
                }
            }
            assert(lhs =~= target.take(i + 1));
        }
        i = i + 1;
    }
    proof {
        assert(rows@.map_values(|r2: YearlyRow| aggregate_of(r2@)).take(n as int) =~= rows@
            .map_values(|r2: YearlyRow| aggregate_of(r2@)));
    }
    aggs
}

/// Fills the daily figures of each matching aggregate from the daily
/// sub-table, by fund name; rows naming no aggregate are ignored.
pub fn apply_daily_rows(aggs: &mut Vec<FundAggregate>, rows: &Vec<DailyRow>)
    ensures
        final(aggs)@.map_values(|a: FundAggregate| a@) == apply_daily_rows_spec(
            old(aggs)@.map_values(|a: FundAggregate| a@),
            rows@.map_values(|r: DailyRow| r@),
        ),
{
    let ghost rms = rows@.map_values(|r: DailyRow| r@);
    let ghost initial = aggs@.map_values(|a: FundAggregate| a@);
    let n = rows.len();
    let mut k: usize = 0;
    proof {
        assert(rms.skip(0) =~= rms);
    }
    while k < n
        invariant
            0 <= k <= n,
            n == rows@.len(),
            rms == rows@.map_values(|r: DailyRow| r@),
            apply_daily_rows_spec(initial, rms) == apply_daily_rows_spec(
                aggs@.map_values(|a: FundAggregate| a@),
                rms.skip(k as int),
            ),
        decreases n - k,
    {
        proof {
            assert(rms.skip(k as int)[0] == rms[k as int]);
            assert(rms.skip(k as int).drop_first() =~= rms.skip(k + 1));
        }
        let ghost pre = aggs@.map_values(|a: FundAggregate| a@);
        let row = &rows[k];
        let m = aggs.len();
        let mut j: usize = 0;
        let mut found: bool = false;
        while j < m && !found
            invariant
                0 <= j <= m,
                m == aggs@.len(),
                pre == aggs@.map_values(|a: FundAggregate| a@),
                pre.len() == m,
                n == rows@.len(),
                k < n,
                rms == rows@.map_values(|r: DailyRow| r@),
                (*row)@ == rms[k as int],
                !found ==> forall|q: int| 0 <= q < j ==> pre[q].fund != rms[k as int].fund,
                found ==> j < m && pre[j as int].fund == rms[k as int].fund && (forall|q: int|
                    0 <= q < j ==> pre[q].fund != rms[k as int].fund),
            decreases m - j + (if found { 0int } else { 1int }),
        {
            proof {
                assert(pre[j as int] == aggs@[j as int]@);
                assert(rms[k as int] == rows@[k as int]@);
            }
            let same = crate::text::str_eq(aggs[j].fund.as_str(), row.fund.as_str());
            proof {
                assert(same == (pre[j as int].fund == rms[k as int].fund));
            }
            if same {
                found = true;
            } else {
                j = j + 1;
            }
        }
        if found {
            proof {
                lemma_first_aggregate_at(pre, rms[k as int].fund, j as int);
            }
            let a = &mut aggs[j];
            a.roe_day = row.roe_day.duplicate();
            a.roe_day_annualized = row.roe_day_annualized.duplicate();
            a.roe_month = row.roe_month.duplicate();
            a.roe_trimester = row.roe_trimester.duplicate();
            a.roe_semester = row.roe_semester.duplicate();
            a.roe_year = row.roe_year.duplicate();
            a.roe_2_years = row.roe_2_years.duplicate();
            a.roe_total = row.roe_total.duplicate();
            proof {
                assert(aggs@.map_values(|a2: FundAggregate| a2@) =~= pre.update(
                    j as int,
                    with_daily(pre[j as int], rms[k as int]),
                ));
            }
        } else {
            proof {
                lemma_first_aggregate_none(pre, rms[k as int].fund);
                assert(apply_daily(pre, rms[k as int]) == pre);
            }
        }
        k = k + 1;
    }
    proof {
        assert(rms.skip(n as int) =~= Seq::<DailyRowModel>::empty());
    }
}

} // verus!
