use vstd::prelude::*;
use crate::domain::decimal::FixedDecimal;
use crate::domain::decimal::parse_fixed_decimal;
use crate::domain::decimal::parse_result;
use crate::domain::models::ElectricityPrice;
use crate::domain::models::GeoZone;
use crate::utils::error::AppError;

verus! {

/// One `(value, datetime)` pair as the provider's envelope carries it: the
/// numeric value as its decimal text, the timestamp as RFC 3339 text.
#[derive(Debug)]
pub struct RawPricePoint {
    pub value: String,
    pub datetime: String,
}

/// One group of the envelope's `included` list: the values of its
/// attributes block.
#[derive(Debug)]
pub struct RawPriceSeries {
    pub values: Vec<RawPricePoint>,
}

/// The instant an RFC 3339 date-and-time text denotes, in whole seconds
/// since the Unix epoch, or `None` where the text is not one. The result is
/// a function of the text alone.
pub uninterp spec fn rfc3339_instant(s: Seq<char>) -> Option<i64>;

/// Relies on chrono's `DateTime::parse_from_rfc3339` and
/// `DateTime::timestamp`: parses an RFC 3339 date-and-time text and yields
/// its whole seconds since the Unix epoch. Both are pure functions of the
/// text.
#[verifier::external_body]
fn parse_rfc3339_seconds(s: &str) -> (r: Option<i64>)
    ensures
        r == rfc3339_instant(s@),
{
    match chrono::DateTime::parse_from_rfc3339(s) {
        Ok(dt) => Some(dt.timestamp()),
        Err(_) => None,
    }
}

/// All pairs of all groups, flattened in order.
pub open spec fn flat_points(groups: Seq<RawPriceSeries>) -> Seq<RawPricePoint>
    decreases groups.len(),
{
    if groups.len() == 0 {
        Seq::<RawPricePoint>::empty()
    } else {
        flat_points(groups.drop_last()) + groups.last().values@
    }
}

/// The degrade-not-fail value policy: a value text that is not a parseable
/// in-range numeral becomes the zero price rather than dropping the record,
/// so the sample count is preserved.
pub open spec fn value_policy(v: Seq<char>) -> FixedDecimal {
    match parse_result(v) {
        Some(d) => d,
        None => FixedDecimal { mantissa: 0 },
    }
}

pub open spec fn all_datetimes_parse(points: Seq<RawPricePoint>) -> bool {
    forall|k: int|
        0 <= k < points.len() ==> rfc3339_instant(#[trigger] points[k].datetime@) is Some
}

/// The record a raw point normalizes to, once its datetime is known to
/// parse.
pub open spec fn normalized_point(p: RawPricePoint) -> ElectricityPrice {
    ElectricityPrice {
        datetime: rfc3339_instant(p.datetime@).unwrap(),
        value: value_policy(p.value@),
        geo_zone: GeoZone::Peninsula,
        meta_tags: None,
    }
}

pub open spec fn normalized_records(points: Seq<RawPricePoint>) -> Seq<ElectricityPrice> {
    Seq::new(points.len(), |k: int| normalized_point(points[k]))
}

proof fn lemma_flat_step(groups: Seq<RawPriceSeries>, g: int)
    requires
        0 <= g < groups.len(),
    ensures
        flat_points(groups.take(g + 1)) == flat_points(groups.take(g)) + groups[g].values@,
{
    let t = groups.take(g + 1);
    assert(t.drop_last() =~= groups.take(g));
    assert(t.last() == groups[g]);
}

/// What is flattened from a prefix of the groups is a prefix of what is
/// flattened from all of them.
proof fn lemma_flat_prefix_of(groups: Seq<RawPriceSeries>, g: int)
    requires
        0 <= g <= groups.len(),
    ensures
        flat_points(groups).len() >= flat_points(groups.take(g)).len(),
        forall|k: int|
            0 <= k < flat_points(groups.take(g)).len() ==> #[trigger] flat_points(groups)[k]
                == flat_points(groups.take(g))[k],
    decreases groups.len() - g,
{
    if g == groups.len() {
        assert(groups.take(g) =~= groups);
    } else {
        lemma_flat_step(groups, g);
        lemma_flat_prefix_of(groups, g + 1);
    }
}

proof fn lemma_normalized_push(pts: Seq<RawPricePoint>, p: RawPricePoint)
    ensures
        normalized_records(pts.push(p)) =~= normalized_records(pts).push(normalized_point(p)),
{
    assert(forall|k: int| 0 <= k < pts.len() ==> #[trigger] pts.push(p)[k] == pts[k]);
    assert(pts.push(p)[pts.len() as int] == p);
}

/// Normalizes the provider's flattened envelope into price records: every
/// pair, across all groups, becomes one record tagged with the fixed
/// `Peninsula` zone of the current endpoint. A value text that cannot be
/// parsed becomes the zero price (the batch goes on); a datetime text that
/// cannot be parsed fails the whole response as a parse error.
pub fn spot_prices_from_response(included: Vec<RawPriceSeries>) -> (r: Result<
    Vec<ElectricityPrice>,
    AppError,
>)
    ensures
        r is Ok <==> all_datetimes_parse(flat_points(included@)),
        r matches Ok(v) ==> v@ == normalized_records(flat_points(included@)),
        r matches Err(e) ==> e is ParseError,
{
    let mut out: Vec<ElectricityPrice> = Vec::new();
    let mut g: usize = 0;
    proof {
        assert(included@.take(0) =~= Seq::<RawPriceSeries>::empty());
    }
    while g < included.len()
        invariant
            g <= included.len(),
            out@ == normalized_records(flat_points(included@.take(g as int))),
            all_datetimes_parse(flat_points(included@.take(g as int))),
        decreases included.len() - g,
    {
        let group = &included[g];
        let mut j: usize = 0;
        proof {
            assert(group.values@.take(0) =~= Seq::<RawPricePoint>::empty());
            assert(flat_points(included@.take(g as int)) + group.values@.take(0)
                =~= flat_points(included@.take(g as int)));
        }
        while j < group.values.len()
            invariant
                g < included.len(),
                j <= group.values.len(),
                group == &included@[g as int],
                out@ == normalized_records(
                    flat_points(included@.take(g as int)) + group.values@.take(j as int),
                ),
                all_datetimes_parse(
                    flat_points(included@.take(g as int)) + group.values@.take(j as int),
                ),
            decreases group.values.len() - j,
        {
            let point = &group.values[j];
            let ghost done = flat_points(included@.take(g as int)) + group.values@.take(j as int);
            proof {
                assert(done.push(group.values@[j as int]) =~= flat_points(
                    included@.take(g as int),
                ) + group.values@.take(j as int + 1));
            }
            match parse_rfc3339_seconds(point.datetime.as_str()) {
                None => {
                    proof {
                        let idx = done.len() as int;
                        lemma_flat_step(included@, g as int);
                        lemma_flat_prefix_of(included@, g as int + 1);
                        assert(flat_points(included@.take(g as int + 1))[idx]
                            == group.values@[j as int]);
                        assert(flat_points(included@)[idx] == group.values@[j as int]);
                        assert(!all_datetimes_parse(flat_points(included@)));
                    }
                    return Err(
                        AppError::ParseError(
                            String::from_str("provider response carries an unparseable datetime"),
                        ),
                    );
                },
                Some(ts) => {
                    let val = match parse_fixed_decimal(point.value.as_str()) {
                        Some(d) => d,
                        None => FixedDecimal::zero(),
                    };
                    proof {
                        lemma_normalized_push(done, group.values@[j as int]);
                    }
                    out.push(
                        ElectricityPrice {
                            datetime: ts,
                            value: val,
                            geo_zone: GeoZone::Peninsula,
                            meta_tags: None,
                        },
                    );
                    proof {
                        assert forall|k: int|
                            0 <= k < done.push(group.values@[j as int]).len() implies
                            rfc3339_instant(
                                #[trigger] done.push(group.values@[j as int])[k].datetime@,
                            ) is Some by {
                            if k < done.len() {
                                assert(done.push(group.values@[j as int])[k] == done[k]);
                            }
                        }
                    }
                },
            }
            j += 1;
        }
        proof {
            assert(group.values@.take(group.values@.len() as int) =~= group.values@);
            lemma_flat_step(included@, g as int);
        }
        g += 1;
    }
    proof {
        assert(included@.take(included@.len() as int) =~= included@);
    }
    Ok(out)
}

} // verus!
