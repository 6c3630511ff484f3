use vstd::prelude::*;
use crate::domain::decimal::FixedDecimal;
use crate::domain::models::CalendarDate;
use crate::domain::models::ElectricityPrice;
use crate::domain::models::GeoZone;
use crate::domain::models::day_index;
use crate::utils::error::AppError;

verus! {

/// The natural key of an observation: at most one stored record carries it.
pub open spec fn key_of(r: ElectricityPrice) -> (int, GeoZone) {
    (r.datetime as int, r.geo_zone)
}

pub open spec fn has_key(s: Seq<ElectricityPrice>, k: (int, GeoZone)) -> bool {
    exists|i: int| 0 <= i < s.len() && key_of(#[trigger] s[i]) == k
}

/// No two stored records share a natural key.
pub open spec fn unique_keys(s: Seq<ElectricityPrice>) -> bool {
    forall|i: int, j: int|
        0 <= i < j < s.len() ==> key_of(#[trigger] s[i]) != key_of(#[trigger] s[j])
}

/// Contents after an idempotent batch save: records are taken in batch
/// order; one whose key is already present (in the store, or through an
/// earlier record of the same batch) is silently skipped, every other is
/// appended. Skipping is not an error path.
pub open spec fn upsert_batch(
    stored: Seq<ElectricityPrice>,
    batch: Seq<ElectricityPrice>,
) -> Seq<ElectricityPrice>
    decreases batch.len(),
{
    if batch.len() == 0 {
        stored
    } else if has_key(stored, key_of(batch[0])) {
        upsert_batch(stored, batch.skip(1))
    } else {
        upsert_batch(stored.push(batch[0]), batch.skip(1))
    }
}

/// Records sorted by timestamp, most recent first.
pub open spec fn sorted_desc(s: Seq<ElectricityPrice>) -> bool {
    forall|i: int, j: int|
        0 <= i <= j < s.len() ==> #[trigger] s[i].datetime >= #[trigger] s[j].datetime
}

/// `result` holds the `limit` most recent stored records (all of them when
/// fewer exist): it is a prefix of a descending reordering of the store.
pub open spec fn latest_prices_of(
    result: Seq<ElectricityPrice>,
    stored: Seq<ElectricityPrice>,
    limit: int,
) -> bool {
    exists|all: Seq<ElectricityPrice>|
        {
            &&& all.to_multiset() == stored.to_multiset()
            &&& all.len() == stored.len()
            &&& sorted_desc(all)
            &&& result == all.take(
                if limit <= stored.len() {
                    limit
                } else {
                    stored.len() as int
                },
            )
        }
}

/// The stored records whose timestamp falls on the given UTC calendar day,
/// in storage order.
pub open spec fn day_records(s: Seq<ElectricityPrice>, day: int) -> Seq<ElectricityPrice>
    decreases s.len(),
{
    if s.len() == 0 {
        Seq::<ElectricityPrice>::empty()
    } else {
        let rest = day_records(s.drop_last(), day);
        if day_index(s.last().datetime as int) == day {
            rest.push(s.last())
        } else {
            rest
        }
    }
}

pub open spec fn sum_mantissas(s: Seq<ElectricityPrice>) -> int
    decreases s.len(),
{
    if s.len() == 0 {
        0
    } else {
        sum_mantissas(s.drop_last()) + s.last().value.mantissa
    }
}

/// Integer division truncating toward zero, as the aggregate average uses.
pub open spec fn trunc_div(a: int, b: int) -> int {
    if a >= 0 {
        a / b
    } else {
        -((-a) / b)
    }
}

/// Daily aggregate statistics, derived on read and never stored. Each of
/// `max`, `min`, `avg` is absent exactly when no sample exists for the day.
#[derive(Debug, Clone, Copy)]
pub struct DailyStatsDto {
    pub max: Option<FixedDecimal>,
    pub min: Option<FixedDecimal>,
    pub avg: Option<FixedDecimal>,
    pub count: u64,
}

/// `m` is the value of some record of `s`, and no record of `s` is worth
/// more.
pub open spec fn is_max_of(m: FixedDecimal, s: Seq<ElectricityPrice>) -> bool {
    &&& exists|i: int| 0 <= i < s.len() && #[trigger] s[i].value == m
    &&& forall|i: int| 0 <= i < s.len() ==> #[trigger] s[i].value.mantissa <= m.mantissa
}

/// `m` is the value of some record of `s`, and no record of `s` is worth
/// less.
pub open spec fn is_min_of(m: FixedDecimal, s: Seq<ElectricityPrice>) -> bool {
    &&& exists|i: int| 0 <= i < s.len() && #[trigger] s[i].value == m
    &&& forall|i: int| 0 <= i < s.len() ==> #[trigger] s[i].value.mantissa >= m.mantissa
}

/// What a correct daily aggregate over `stored` for `date` looks like.
pub open spec fn daily_stats_of(
    dto: DailyStatsDto,
    stored: Seq<ElectricityPrice>,
    date: CalendarDate,
) -> bool {
    let dr = day_records(stored, date.days_from_epoch as int);
    &&& dto.count as int == dr.len()
    &&& dr.len() == 0 ==> dto.max is None && dto.min is None && dto.avg is None
    &&& dr.len() > 0 ==> {
        &&& dto.max matches Some(mx) && is_max_of(mx, dr)
        &&& dto.min matches Some(mn) && is_min_of(mn, dr)
        &&& dto.avg matches Some(av) && av.mantissa == trunc_div(
            sum_mantissas(dr),
            dr.len() as int,
        )
    }
}

/// Capability contract of the price store: one atomic idempotent batch
/// save, the most recent `limit` records, and per-day aggregates. Any
/// storage engine implementing these contracts can stand behind the
/// ingestion pipeline and the read API.
pub trait PriceRepository: Sized {
    spec fn contents(&self) -> Seq<ElectricityPrice>;

    /// Persists the batch in one atomic unit: either every non-conflicting
    /// record of the call is committed, or (on engine failure) none is.
    fn save_prices(&mut self, prices: &Vec<ElectricityPrice>) -> (r: Result<(), AppError>)
        ensures
            r is Ok ==> final(self).contents() == upsert_batch(old(self).contents(), prices@),
            r is Err ==> final(self).contents() == old(self).contents(),
    ;

    /// Up to `limit` most recent records, ordered by timestamp descending;
    /// fewer than `limit` is a valid result, not an error.
    fn get_last_prices(&self, limit: i32) -> (r: Result<Vec<ElectricityPrice>, AppError>)
        requires
            limit >= 1,
        ensures
            r matches Ok(v) ==> latest_prices_of(v@, self.contents(), limit as int),
    ;

    /// Aggregates over all records of the given UTC calendar day, across
    /// all zones combined; a day without records yields the zero-count,
    /// all-absent result, never an error.
    fn get_stats_by_date(&self, date: CalendarDate) -> (r: Result<DailyStatsDto, AppError>)
        ensures
            r matches Ok(dto) ==> daily_stats_of(dto, self.contents(), date),
    ;
}

proof fn lemma_has_key_push(s: Seq<ElectricityPrice>, x: ElectricityPrice, k: (int, GeoZone))
    ensures
        has_key(s.push(x), k) <==> (has_key(s, k) || key_of(x) == k),
{
    if has_key(s, k) {
        let i = choose|i: int| 0 <= i < s.len() && key_of(s[i]) == k;
        assert(key_of(s.push(x)[i]) == k);
    }
    if key_of(x) == k {
        assert(key_of(s.push(x)[s.len() as int]) == k);
    }
    if has_key(s.push(x), k) {
        let i = choose|i: int| 0 <= i < s.push(x).len() && key_of(s.push(x)[i]) == k;
        if i < s.len() {
            assert(key_of(s[i]) == k);
        }
    }
}

/// The keys present after a batch save are exactly those present before
/// plus those the batch carries.
pub proof fn lemma_upsert_keys(
    stored: Seq<ElectricityPrice>,
    batch: Seq<ElectricityPrice>,
    k: (int, GeoZone),
)
    ensures
        has_key(upsert_batch(stored, batch), k) <==> (has_key(stored, k) || exists|j: int|
            0 <= j < batch.len() && key_of(#[trigger] batch[j]) == k),
    decreases batch.len(),
{
    if batch.len() > 0 {
        let rest = batch.skip(1);
        assert(forall|j: int| 0 <= j < rest.len() ==> rest[j] == batch[j + 1]);
        if has_key(stored, key_of(batch[0])) {
            lemma_upsert_keys(stored, rest, k);
            if key_of(batch[0]) == k {
                assert(has_key(stored, k));
            }
        } else {
            lemma_upsert_keys(stored.push(batch[0]), rest, k);
            lemma_has_key_push(stored, batch[0], k);
        }
        assert((exists|j: int| 0 <= j < batch.len() && key_of(#[trigger] batch[j]) == k)
            <==> (key_of(batch[0]) == k || exists|j: int|
            0 <= j < rest.len() && key_of(#[trigger] rest[j]) == k)) by {
            if exists|j: int| 0 <= j < batch.len() && key_of(#[trigger] batch[j]) == k {
                let j = choose|j: int| 0 <= j < batch.len() && key_of(#[trigger] batch[j]) == k;
                if j > 0 {
                    assert(key_of(rest[j - 1]) == k);
                }
            }
            if exists|j: int| 0 <= j < rest.len() && key_of(#[trigger] rest[j]) == k {
                let j = choose|j: int| 0 <= j < rest.len() && key_of(#[trigger] rest[j]) == k;
                assert(key_of(batch[j + 1]) == k);
            }
        }
    }
}

/// Saving a batch that brings no fresh key leaves the store unchanged.
pub proof fn lemma_upsert_no_new_keys(stored: Seq<ElectricityPrice>, batch: Seq<ElectricityPrice>)
    requires
        forall|j: int| 0 <= j < batch.len() ==> has_key(stored, key_of(#[trigger] batch[j])),
    ensures
        upsert_batch(stored, batch) == stored,
    decreases batch.len(),
{
    if batch.len() > 0 {
        let rest = batch.skip(1);
        assert(forall|j: int| 0 <= j < rest.len() ==> rest[j] == batch[j + 1]);
        assert(has_key(stored, key_of(batch[0])));
        lemma_upsert_no_new_keys(stored, rest);
    }
}

/// Law (idempotence): saving the same batch a second time changes nothing —
/// in particular the stored row count stays the same.
pub proof fn lemma_save_idempotent(stored: Seq<ElectricityPrice>, batch: Seq<ElectricityPrice>)
    ensures
        upsert_batch(upsert_batch(stored, batch), batch) == upsert_batch(stored, batch),
{
    let once = upsert_batch(stored, batch);
    assert forall|j: int| 0 <= j < batch.len() implies has_key(once, key_of(#[trigger] batch[j])) by {
        lemma_upsert_keys(stored, batch, key_of(batch[j]));
    }
    lemma_upsert_no_new_keys(once, batch);
}

/// Law (partial-conflict tolerance): a batch mixing already-present and
/// fresh keys persists exactly the fresh ones; the records already stored
/// stay untouched in place, what is appended comes from the batch, and no
/// conflict aborts the rest of the batch.
pub proof fn lemma_partial_conflict_tolerance(
    stored: Seq<ElectricityPrice>,
    batch: Seq<ElectricityPrice>,
)
    ensures
        upsert_batch(stored, batch).len() >= stored.len(),
        forall|i: int| 0 <= i < stored.len() ==> #[trigger] upsert_batch(stored, batch)[i]
            == stored[i],
        forall|j: int|
            0 <= j < batch.len() && !has_key(stored, key_of(#[trigger] batch[j])) ==> has_key(
                upsert_batch(stored, batch),
                key_of(batch[j]),
            ),
        forall|i: int|
            #![trigger upsert_batch(stored, batch)[i]]
            stored.len() <= i < upsert_batch(stored, batch).len() ==> (exists|j: int|
                0 <= j < batch.len() && #[trigger] batch[j] == upsert_batch(stored, batch)[i]
                    && !has_key(stored, key_of(batch[j]))),
    decreases batch.len(),
{
    let result = upsert_batch(stored, batch);
    if batch.len() > 0 {
        let rest = batch.skip(1);
        assert(forall|j: int| 0 <= j < rest.len() ==> rest[j] == batch[j + 1]);
        if has_key(stored, key_of(batch[0])) {
            lemma_partial_conflict_tolerance(stored, rest);
            assert forall|j: int|
                0 <= j < batch.len() && !has_key(stored, key_of(#[trigger] batch[j])) implies
                has_key(result, key_of(batch[j])) by {
                assert(rest[j - 1] == batch[j]);
            }
        } else {
            let pushed = stored.push(batch[0]);
            lemma_partial_conflict_tolerance(pushed, rest);
            assert forall|j: int|
                0 <= j < batch.len() && !has_key(stored, key_of(#[trigger] batch[j])) implies
                has_key(result, key_of(batch[j])) by {
                if j == 0 {
                    lemma_upsert_keys(pushed, rest, key_of(batch[0]));
                    lemma_has_key_push(stored, batch[0], key_of(batch[0]));
                } else {
                    lemma_upsert_keys(pushed, rest, key_of(batch[j]));
                    lemma_has_key_push(stored, batch[0], key_of(batch[j]));
                    assert(rest[j - 1] == batch[j]);
                }
            }
            assert forall|i: int|
                #![trigger result[i]]
                stored.len() <= i < result.len() implies (exists|j: int|
                0 <= j < batch.len() && #[trigger] batch[j] == result[i] && !has_key(
                    stored,
                    key_of(batch[j]),
                )) by {
                if i == stored.len() {
                    assert(result[i] == pushed[i]);
                    assert(batch[0] == result[i]);
                } else {
                    let j = choose|j: int|
                        0 <= j < rest.len() && #[trigger] rest[j] == result[i] && !has_key(
                            pushed,
                            key_of(rest[j]),
                        );
                    lemma_has_key_push(stored, batch[0], key_of(rest[j]));
                    assert(batch[j + 1] == result[i]);
                }
            }
        }
    }
}

/// Law (natural-key invariant): a batch save never duplicates a key — a
/// store whose records carry distinct natural keys still does after any
/// upsert.
pub proof fn lemma_upsert_preserves_unique_keys(
    stored: Seq<ElectricityPrice>,
    batch: Seq<ElectricityPrice>,
)
    requires
        unique_keys(stored),
    ensures
        unique_keys(upsert_batch(stored, batch)),
    decreases batch.len(),
{
    if batch.len() > 0 {
        if has_key(stored, key_of(batch[0])) {
            lemma_upsert_preserves_unique_keys(stored, batch.skip(1));
        } else {
            let pushed = stored.push(batch[0]);
            assert forall|i: int, j: int| 0 <= i < j < pushed.len() implies key_of(
                #[trigger] pushed[i],
            ) != key_of(#[trigger] pushed[j]) by {
                if j == stored.len() {
                    assert(pushed[i] == stored[i]);
                    if key_of(stored[i]) == key_of(batch[0]) {
                        assert(has_key(stored, key_of(batch[0])));
                    }
                } else {
                    assert(pushed[i] == stored[i]);
                    assert(pushed[j] == stored[j]);
                }
            }
            lemma_upsert_preserves_unique_keys(pushed, batch.skip(1));
        }
    }
}

/// Saving batches one after another is the same as saving their
/// concatenation: the upsert folds left over the records.
pub proof fn lemma_upsert_concat(
    stored: Seq<ElectricityPrice>,
    b1: Seq<ElectricityPrice>,
    b2: Seq<ElectricityPrice>,
)
    ensures
        upsert_batch(stored, b1 + b2) == upsert_batch(upsert_batch(stored, b1), b2),
    decreases b1.len(),
{
    if b1.len() == 0 {
        assert(b1 + b2 =~= b2);
    } else {
        let whole = b1 + b2;
        assert(whole[0] == b1[0]);
        assert(whole.skip(1) =~= b1.skip(1) + b2);
        if has_key(stored, key_of(b1[0])) {
            lemma_upsert_concat(stored, b1.skip(1), b2);
        } else {
            lemma_upsert_concat(stored.push(b1[0]), b1.skip(1), b2);
        }
    }
}

} // verus!
