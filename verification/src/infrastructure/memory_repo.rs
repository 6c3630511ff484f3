use vstd::prelude::*;
use crate::domain::decimal::FixedDecimal;
use crate::domain::models::CalendarDate;
use crate::domain::models::ElectricityPrice;
use crate::domain::models::GeoZone;
use crate::domain::models::day_index;
use crate::domain::models::day_of_timestamp;
use crate::domain::repository::DailyStatsDto;
use crate::domain::repository::PriceRepository;
use crate::domain::repository::daily_stats_of;
use crate::domain::repository::day_records;
use crate::domain::repository::has_key;
use crate::domain::repository::is_max_of;
use crate::domain::repository::is_min_of;
use crate::domain::repository::key_of;
use crate::domain::repository::latest_prices_of;
use crate::domain::repository::sorted_desc;
use crate::domain::repository::sum_mantissas;
use crate::domain::repository::trunc_div;
use crate::domain::repository::upsert_batch;
use crate::utils::error::AppError;

verus! {

/// In-memory storage engine behind the repository contract: rows held in
/// insertion order, one per natural key. It is the reference implementation
/// of the store, usable wherever no external engine is wanted.
pub struct MemoryPriceRepository {
    records: Vec<ElectricityPrice>,
}

/// Whether some record of `v` already carries the key `(datetime, zone)`.
fn vec_has_key(v: &Vec<ElectricityPrice>, datetime: i64, zone: GeoZone) -> (r: bool)
    ensures
        r == has_key(v@, (datetime as int, zone)),
{
    let mut i: usize = 0;
    while i < v.len()
        invariant
            i <= v.len(),
            forall|k: int| 0 <= k < i ==> key_of(#[trigger] v@[k]) != (datetime as int, zone),
        decreases v.len() - i,
    {
        if v[i].datetime == datetime && v[i].geo_zone == zone {
            assert(key_of(v@[i as int]) == (datetime as int, zone));
            return true;
        }
        i += 1;
    }
    false
}

/// First position of the descending sequence `v` whose record is older than
/// `datetime`: the place a record of that timestamp belongs.
fn find_insert_pos(v: &Vec<ElectricityPrice>, datetime: i64) -> (pos: usize)
    requires
        sorted_desc(v@),
    ensures
        pos <= v@.len(),
        forall|k: int| 0 <= k < pos ==> #[trigger] v@[k].datetime >= datetime,
        forall|k: int| pos <= k < v@.len() ==> #[trigger] v@[k].datetime < datetime,
{
    let mut i: usize = 0;
    while i < v.len()
        invariant
            i <= v.len(),
            sorted_desc(v@),
            forall|k: int| 0 <= k < i ==> #[trigger] v@[k].datetime >= datetime,
        decreases v.len() - i,
    {
        if v[i].datetime < datetime {
            return i;
        }
        i += 1;
    }
    i
}

proof fn lemma_seq_insert_to_multiset(s: Seq<ElectricityPrice>, p: int, v: ElectricityPrice)
    requires
        0 <= p <= s.len(),
    ensures
        s.insert(p, v).to_multiset() =~= s.to_multiset().insert(v),
{
    let s1 = s.subrange(0, p);
    let s2 = s.subrange(p, s.len() as int);
    vstd::seq_lib::lemma_multiset_commutative(s1.push(v), s2);
    vstd::seq_lib::lemma_multiset_commutative(s1, s2);
    s1.to_multiset_ensures();
    assert(s =~= s1 + s2);
}

proof fn lemma_day_records_step(s: Seq<ElectricityPrice>, i: int, day: int)
    requires
        0 <= i < s.len(),
    ensures
        day_index(s[i].datetime as int) == day ==> day_records(s.take(i + 1), day)
            == day_records(s.take(i), day).push(s[i]),
        day_index(s[i].datetime as int) != day ==> day_records(s.take(i + 1), day)
            == day_records(s.take(i), day),
{
    let t = s.take(i + 1);
    assert(t.drop_last() =~= s.take(i));
    assert(t.last() == s[i]);
}

proof fn lemma_max_extend(s: Seq<ElectricityPrice>, r: ElectricityPrice, m: FixedDecimal)
    requires
        is_max_of(m, s),
    ensures
        r.value.mantissa <= m.mantissa ==> is_max_of(m, s.push(r)),
        r.value.mantissa > m.mantissa ==> is_max_of(r.value, s.push(r)),
{
    let t = s.push(r);
    assert(t[s.len() as int] == r);
    assert(forall|k: int| 0 <= k < s.len() ==> #[trigger] t[k] == s[k]);
    if r.value.mantissa <= m.mantissa {
        let i = choose|i: int| 0 <= i < s.len() && #[trigger] s[i].value == m;
        assert(t[i].value == m);
    }
}

proof fn lemma_min_extend(s: Seq<ElectricityPrice>, r: ElectricityPrice, m: FixedDecimal)
    requires
        is_min_of(m, s),
    ensures
        r.value.mantissa >= m.mantissa ==> is_min_of(m, s.push(r)),
        r.value.mantissa < m.mantissa ==> is_min_of(r.value, s.push(r)),
{
    let t = s.push(r);
    assert(t[s.len() as int] == r);
    assert(forall|k: int| 0 <= k < s.len() ==> #[trigger] t[k] == s[k]);
    if r.value.mantissa >= m.mantissa {
        let i = choose|i: int| 0 <= i < s.len() && #[trigger] s[i].value == m;
        assert(t[i].value == m);
    }
}

proof fn lemma_extreme_singleton(s: Seq<ElectricityPrice>, r: ElectricityPrice)
    requires
        s.len() == 0,
    ensures
        is_max_of(r.value, s.push(r)),
        is_min_of(r.value, s.push(r)),
{
    assert(s.push(r)[0] == r);
}

impl MemoryPriceRepository {
    /// An empty store.
    pub fn new() -> (r: MemoryPriceRepository)
        ensures
            r.contents() == Seq::<ElectricityPrice>::empty(),
    {
        MemoryPriceRepository { records: Vec::new() }
    }
}

impl PriceRepository for MemoryPriceRepository {
    closed spec fn contents(&self) -> Seq<ElectricityPrice> {
        self.records@
    }

    fn save_prices(&mut self, prices: &Vec<ElectricityPrice>) -> (r: Result<(), AppError>)
        ensures
            r is Ok,
    {
        let ghost orig = self.records@;
        let mut idx: usize = 0;
        while idx < prices.len()
            invariant
                idx <= prices.len(),
                self.records@ == upsert_batch(orig, prices@.take(idx as int)),
            decreases prices.len() - idx,
        {
            let p = &prices[idx];
            let dup = vec_has_key(&self.records, p.datetime, p.geo_zone);
            proof {
                let cur = self.records@;
                let pfx = prices@.take(idx as int);
                let single = seq![prices@[idx as int]];
                assert(prices@.take(idx as int + 1) =~= pfx + single);
                crate::domain::repository::lemma_upsert_concat(orig, pfx, single);
                assert(single.skip(1) =~= Seq::<ElectricityPrice>::empty());
                assert(single[0] == prices@[idx as int]);
                assert(key_of(single[0]) == (p.datetime as int, p.geo_zone));
                if dup {
                    assert(upsert_batch(cur, single) == upsert_batch(cur, single.skip(1)));
                    assert(upsert_batch(cur, Seq::<ElectricityPrice>::empty()) == cur);
                } else {
                    assert(upsert_batch(cur, single) == upsert_batch(
                        cur.push(single[0]),
                        single.skip(1),
                    ));
                    assert(upsert_batch(cur.push(single[0]), Seq::<ElectricityPrice>::empty())
                        == cur.push(single[0]));
                }
            }
            if !dup {
                self.records.push(p.clone());
            }
            idx += 1;
        }
        proof {
            assert(prices@.take(prices@.len() as int) =~= prices@);
        }
        Ok(())
    }

    fn get_last_prices(&self, limit: i32) -> (r: Result<Vec<ElectricityPrice>, AppError>)
        ensures
            r is Ok,
    {
        let mut sorted: Vec<ElectricityPrice> = Vec::new();
        let mut i: usize = 0;
        proof {
            assert(self.records@.take(0) =~= Seq::<ElectricityPrice>::empty());
        }
        while i < self.records.len()
            invariant
                i <= self.records.len(),
                sorted@.len() == i,
                sorted_desc(sorted@),
                sorted@.to_multiset() == self.records@.take(i as int).to_multiset(),
            decreases self.records.len() - i,
        {
            let rec = self.records[i].clone();
            let pos = find_insert_pos(&sorted, rec.datetime);
            let ghost pre = sorted@;
            sorted.insert(pos, rec);
            proof {
                pre.insert_ensures(pos as int, rec);
                lemma_seq_insert_to_multiset(pre, pos as int, rec);
                assert(sorted@ == pre.insert(pos as int, rec));
                assert forall|a: int, b: int| 0 <= a <= b < sorted@.len() implies
                    sorted@[a].datetime >= sorted@[b].datetime by {
                    if a < pos as int {
                        assert(sorted@[a] == pre[a]);
                    } else if a > pos as int {
                        assert(sorted@[a] == pre[a - 1]);
                    }
                    if b < pos as int {
                        assert(sorted@[b] == pre[b]);
                    } else if b > pos as int {
                        assert(sorted@[b] == pre[b - 1]);
                    }
                }
                assert(self.records@.take(i as int + 1) =~= self.records@.take(i as int).push(
                    self.records@[i as int],
                ));
                self.records@.take(i as int).to_multiset_ensures();
                assert(sorted@.to_multiset() == self.records@.take(i as int + 1).to_multiset());
            }
            i += 1;
        }
        proof {
            assert(self.records@.take(self.records@.len() as int) =~= self.records@);
        }
        let ghost full = sorted@;
        let lim = limit as usize;
        if sorted.len() > lim {
            sorted.truncate(lim);
        }
        proof {
            assert(sorted@ == full.take(
                if limit as int <= self.records@.len() {
                    limit as int
                } else {
                    self.records@.len() as int
                },
            ));
            assert(latest_prices_of(sorted@, self.contents(), limit as int));
        }
        Ok(sorted)
    }

    fn get_stats_by_date(&self, date: CalendarDate) -> (r: Result<DailyStatsDto, AppError>)
        ensures
            r is Ok,
    {
        let ghost day = date.days_from_epoch as int;
        let mut count: u64 = 0;
        let mut sum: i128 = 0;
        let mut max_m: Option<FixedDecimal> = None;
        let mut min_m: Option<FixedDecimal> = None;
        let mut i: usize = 0;
        while i < self.records.len()
            invariant
                day == date.days_from_epoch as int,
                i <= self.records.len(),
                count as int == day_records(self.records@.take(i as int), day).len(),
                count <= i,
                sum as int == sum_mantissas(day_records(self.records@.take(i as int), day)),
                -(count as int) * (i64::MAX as int + 1) <= sum as int <= (count as int) * (
                i64::MAX as int),
                count == 0 <==> max_m is None,
                count == 0 <==> min_m is None,
                max_m matches Some(m) ==> is_max_of(
                    m,
                    day_records(self.records@.take(i as int), day),
                ),
                min_m matches Some(m) ==> is_min_of(
                    m,
                    day_records(self.records@.take(i as int), day),
                ),
            decreases self.records.len() - i,
        {
            let rec = &self.records[i];
            let ghost dr = day_records(self.records@.take(i as int), day);
            proof {
                lemma_day_records_step(self.records@, i as int, day);
            }
            let dd = day_of_timestamp(rec.datetime);
            if dd == date.days_from_epoch {
                proof {
                    let r = self.records@[i as int];
                    assert(rec.datetime == r.datetime);
                    assert(dd as int == day_index(rec.datetime as int));
                    assert(day_index(r.datetime as int) == day);
                    assert(dr.push(r).drop_last() =~= dr);
                    assert(dr.push(r).last() == r);
                    assert(sum_mantissas(dr.push(r)) == sum_mantissas(dr) + r.value.mantissa);
                    assert(day_records(self.records@.take(i as int + 1), day) == dr.push(r));
                    assert((count as int + 1) * (i64::MAX as int) == (count as int) * (
                    i64::MAX as int) + (i64::MAX as int)) by (nonlinear_arith);
                    assert(-(count as int + 1) * (i64::MAX as int + 1) == -(count as int) * (
                    i64::MAX as int + 1) - (i64::MAX as int + 1)) by (nonlinear_arith);
                    assert(count as int + 1 <= u64::MAX as int);
                    vstd::arithmetic::mul::lemma_mul_inequality(
                        count as int + 1,
                        u64::MAX as int,
                        i64::MAX as int + 1,
                    );
                    vstd::arithmetic::mul::lemma_mul_inequality(
                        count as int + 1,
                        u64::MAX as int,
                        i64::MAX as int,
                    );
                    assert((u64::MAX as int) * (i64::MAX as int + 1) < i128::MAX as int);
                }
                count = count + 1;
                sum = sum + (rec.value.mantissa as i128);
                match max_m {
                    None => {
                        proof {
                            lemma_extreme_singleton(dr, self.records@[i as int]);
                        }
                        max_m = Some(rec.value);
                    },
                    Some(m) => {
                        proof {
                            lemma_max_extend(dr, self.records@[i as int], m);
                        }
                        if rec.value.mantissa > m.mantissa {
                            max_m = Some(rec.value);
                        }
                    },
                }
                match min_m {
                    None => {
                        min_m = Some(rec.value);
                    },
                    Some(m) => {
                        proof {
                            lemma_min_extend(dr, self.records@[i as int], m);
                        }
                        if rec.value.mantissa < m.mantissa {
                            min_m = Some(rec.value);
                        }
                    },
                }
            }
            i += 1;
        }
        proof {
            assert(self.records@.take(self.records@.len() as int) =~= self.records@);
        }
        let ghost dr = day_records(self.records@, day);
        if count == 0 {
            Ok(DailyStatsDto { max: None, min: None, avg: None, count: 0 })
        } else {
            let avg_mantissa: i64 = if sum >= 0 {
                proof {
                    vstd::arithmetic::div_mod::lemma_div_is_ordered(
                        sum as int,
                        (count as int) * (i64::MAX as int),
                        count as int,
                    );
                    vstd::arithmetic::div_mod::lemma_div_multiples_vanish(
                        i64::MAX as int,
                        count as int,
                    );
                    assert((count as int) * (i64::MAX as int) == (i64::MAX as int) * (
                    count as int)) by (nonlinear_arith);
                }
                ((sum as u128) / (count as u128)) as i64
            } else {
                let neg: i128 = -sum;
                proof {
                    vstd::arithmetic::div_mod::lemma_div_is_ordered(
                        neg as int,
                        (count as int) * (i64::MAX as int + 1),
                        count as int,
                    );
                    vstd::arithmetic::div_mod::lemma_div_multiples_vanish(
                        i64::MAX as int + 1,
                        count as int,
                    );
                    assert((count as int) * (i64::MAX as int + 1) == (i64::MAX as int + 1) * (
                    count as int)) by (nonlinear_arith);
                }
                let q: u128 = (neg as u128) / (count as u128);
                (-(q as i128)) as i64
            };
            proof {
                assert(avg_mantissa as int == trunc_div(sum_mantissas(dr), dr.len() as int));
            }
            Ok(
                DailyStatsDto {
                    max: max_m,
                    min: min_m,
                    avg: Some(FixedDecimal { mantissa: avg_mantissa }),
                    count,
                },
            )
        }
    }
}

} // verus!
