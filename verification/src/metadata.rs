use vstd::prelude::*;
use vstd::arithmetic::div_mod::{lemma_fundamental_div_mod, lemma_hoist_over_denominator, lemma_mod_bound, lemma_mod_multiples_vanish};
use vstd::string::StringExecFns;
use crate::clock::unix_seconds_now;
use crate::text::{decimal, decimal_pad2, push_decimal, push_decimal_pad2, push_decimal_wide, push_radix, radix_text};

verus! {

/// Gregorian leap years: divisible by 4, and not by 100 unless by 400.
pub open spec fn is_leap_year(y: int) -> bool {
    y % 4 == 0 && (y % 100 != 0 || y % 400 == 0)
}

pub open spec fn year_length(y: int) -> nat {
    if is_leap_year(y) { 366 } else { 365 }
}

/// Days in month `m` (1 to 12) of year `y`.
pub open spec fn month_length(y: int, m: int) -> nat {
    if m == 2 {
        if is_leap_year(y) { 29 } else { 28 }
    } else if m == 4 || m == 6 || m == 9 || m == 11 {
        30
    } else {
        31
    }
}

/// Days from 1970-01-01 to the first of January of year `y` (0 for years up to 1970).
pub open spec fn days_to_year(y: int) -> nat
    decreases y - 1970,
{
    if y <= 1970 {
        0
    } else {
        days_to_year(y - 1) + year_length(y - 1)
    }
}

/// Days from the first of January to the first of month `m` of year `y`.
pub open spec fn days_to_month(y: int, m: int) -> nat
    decreases m,
{
    if m <= 1 {
        0
    } else {
        days_to_month(y, m - 1) + month_length(y, m - 1)
    }
}

/// Whether (y, m, d) is a date from 1970 on, falling `days` days after 1970-01-01.
pub open spec fn is_date_of(days: nat, y: int, m: int, d: int) -> bool {
    &&& y >= 1970
    &&& 1 <= m <= 12
    &&& 1 <= d <= month_length(y, m)
    &&& days_to_year(y) + days_to_month(y, m) + d - 1 == days
}

/// The calendar date `days` days after 1970-01-01, as (year, month, day).
pub open spec fn civil_date(days: nat) -> (int, int, int) {
    choose|t: (int, int, int)| is_date_of(days, t.0, t.1, t.2)
}

/// Leap years strictly before year `y` since year 1 (`y >= 1`).
pub open spec fn leaps_before(y: int) -> int {
    (y - 1) / 4 - (y - 1) / 100 + (y - 1) / 400
}

proof fn lemma_div_step(y: int, d: int)
    requires
        y >= 1,
        d >= 1,
    ensures
        y / d - (y - 1) / d == (if y % d == 0 { 1int } else { 0int }),
{
    lemma_fundamental_div_mod(y, d);
    lemma_fundamental_div_mod(y - 1, d);
    lemma_mod_bound(y, d);
    lemma_mod_bound(y - 1, d);
    let q = y / d;
    let r = y % d;
    let q1 = (y - 1) / d;
    let r1 = (y - 1) % d;
    if r == 0 {
        assert(d * q - 1 == d * q1 + r1);
        assert(q - q1 == 1) by (nonlinear_arith)
            requires
                d * q - 1 == d * q1 + r1,
                0 <= r1 < d,
                d >= 1,
        ;
    } else {
        assert(d * q + r - 1 == d * q1 + r1);
        assert(q == q1) by (nonlinear_arith)
            requires
                d * q + r - 1 == d * q1 + r1,
                0 <= r1 < d,
                1 <= r < d,
                d >= 1,
        ;
    }
}

/// From one year to the next, the count of leap years before grows by one exactly when the
/// year is a leap year.
proof fn lemma_leaps_step(z: int)
    requires
        z >= 1,
    ensures
        leaps_before(z + 1) == leaps_before(z) + (if is_leap_year(z) { 1int } else { 0int }),
{
    lemma_div_step(z, 4);
    lemma_div_step(z, 100);
    lemma_div_step(z, 400);
    assert(z % 400 == 0 ==> z % 100 == 0 && z % 4 == 0) by {
        lemma_fundamental_div_mod(z, 400);
        lemma_fundamental_div_mod(z, 100);
        lemma_fundamental_div_mod(z, 4);
        if z % 400 == 0 {
            assert(z == 400 * (z / 400));
            assert(z % 100 == 0) by (nonlinear_arith)
                requires
                    z == 400 * (z / 400),
            ;
            assert(z % 4 == 0) by (nonlinear_arith)
                requires
                    z == 400 * (z / 400),
            ;
        }
    }
    assert(z % 100 == 0 ==> z % 4 == 0) by {
        if z % 100 == 0 {
            lemma_fundamental_div_mod(z, 100);
            assert(z % 4 == 0) by (nonlinear_arith)
                requires
                    z == 100 * (z / 100),
            ;
        }
    }
}

/// Closed form of `days_to_year`: 365 days a year plus the leap days in between.
pub proof fn lemma_days_to_year(y: int)
    requires
        y >= 1970,
    ensures
        days_to_year(y) == 365 * (y - 1970) + leaps_before(y) - leaps_before(1970),
    decreases y - 1970,
{
    if y > 1970 {
        lemma_days_to_year(y - 1);
        lemma_leaps_step(y - 1);
    }
}

proof fn lemma_days_to_year_mono(a: int, b: int)
    requires
        1970 <= a <= b,
    ensures
        days_to_year(a) + 365 * (b - a) <= days_to_year(b),
    decreases b - a,
{
    if a < b {
        lemma_days_to_year_mono(a, b - 1);
    }
}

proof fn lemma_days_to_month_year(y: int)
    ensures
        days_to_month(y, 12) + 31 == year_length(y),
        forall|m: int| 1 <= m <= 12 ==> #[trigger] days_to_month(y, m) + month_length(y, m) <= year_length(y),
        forall|m: int| 1 <= m < 12 ==> #[trigger] days_to_month(y, m + 1) == days_to_month(y, m) + month_length(y, m),
{
    reveal_with_fuel(days_to_month, 13);
}

/// Two dates from 1970 on falling on the same day are the same date.
pub proof fn lemma_date_unique(days: nat, a: (int, int, int), b: (int, int, int))
    requires
        is_date_of(days, a.0, a.1, a.2),
        is_date_of(days, b.0, b.1, b.2),
    ensures
        a == b,
{
    lemma_days_to_month_year(a.0);
    lemma_days_to_month_year(b.0);
    if a.0 < b.0 {
        lemma_days_to_year_mono(a.0 + 1, b.0);
        assert(false);
    } else if b.0 < a.0 {
        lemma_days_to_year_mono(b.0 + 1, a.0);
        assert(false);
    }
    if a.1 < b.1 {
        lemma_month_order(a.0, a.1, b.1);
    } else if b.1 < a.1 {
        lemma_month_order(a.0, b.1, a.1);
    }
}

proof fn lemma_month_order(y: int, m1: int, m2: int)
    requires
        1 <= m1 < m2 <= 12,
    ensures
        days_to_month(y, m1) + month_length(y, m1) <= days_to_month(y, m2),
    decreases m2 - m1,
{
    lemma_days_to_month_year(y);
    if m1 + 1 < m2 {
        lemma_month_order(y, m1, m2 - 1);
    }
}

} // verus!

verus! {

/// Days in a leap year beyond 365: 1 for a leap year, else 0.
pub open spec fn leap_day(y: int) -> int {
    if is_leap_year(y) { 1 } else { 0 }
}

/// Days from 1970-01-01 to the first of March of year `y` (negative before 1970), in closed form.
pub open spec fn march_first(y: int) -> int {
    365 * (y - 1970) + leaps_before(y) - leaps_before(1970) + 59 + leap_day(y)
}

/// Days from the first of March of an era's year 0 to the first of March of its year `k`,
/// in a 400-year era of the Gregorian calendar (`0 <= k <= 399`).
pub open spec fn year_in_era_start(k: int) -> int {
    365 * k + k / 4 - k / 100
}

/// Days from the first of March to the first of the month `mp` months later (`0 <= mp <= 11`).
pub open spec fn march_offset(mp: int) -> int {
    (153 * mp + 2) / 5
}

/// The year of an era that day `doe` of the era falls in, counting years from March, and
/// the day within that year: the year's formula lands on the right year, and the last day
/// of a year (day 365) only exists in a year whose February that follows has 29 days.
proof fn lemma_year_of_era(doe: u32)
    requires
        doe <= 146096,
    ensures
        ({
            let yoe = (doe - doe / 1460 + doe / 36524 - doe / 146096) / 365;
            let start = 365 * yoe + yoe / 4 - yoe / 100;
            &&& yoe <= 399
            &&& start <= doe
            &&& doe - start <= 365
            &&& (doe - start == 365 ==> (yoe + 1) % 4 == 0 && ((yoe + 1) % 100 != 0 || yoe == 399))
        }),
{
    assert({
        let yoe = (doe - doe / 1460 + doe / 36524 - doe / 146096) / 365;
        let start = 365 * yoe + yoe / 4 - yoe / 100;
        &&& yoe <= 399
        &&& start <= doe
        &&& doe - start <= 365
        &&& (doe - start == 365 ==> (yoe + 1) % 4 == 0 && ((yoe + 1) % 100 != 0 || yoe == 399))
    }) by (bit_vector)
        requires
            doe <= 146096,
    ;
}

/// The month (counted from March) and day of day `doy` of a year counted from March.
proof fn lemma_month_of_year(doy: u64)
    requires
        doy <= 365,
    ensures
        ({
            let mp = (5 * doy + 2) / 153;
            let d = doy - (153 * mp + 2) / 5 + 1;
            &&& mp <= 11
            &&& 1 <= d <= 31
            &&& (mp == 1 || mp == 3 || mp == 6 || mp == 8 ==> d <= 30)
            &&& (mp == 11 ==> d <= 28 || doy == 365)
            &&& (doy == 365 ==> mp == 11 && d == 29)
        }),
{
    assert({
        let mp = (5 * doy + 2) / 153;
        let d = doy - (153 * mp + 2) / 5 + 1;
        &&& mp <= 11
        &&& 1 <= d <= 31
        &&& (mp == 1 || mp == 3 || mp == 6 || mp == 8 ==> d <= 30)
        &&& (mp == 11 ==> d <= 28 || doy == 365)
        &&& (doy == 365 ==> mp == 11 && d == 29)
    }) by (bit_vector)
        requires
            doy <= 365,
    ;
}

/// Where the months counted from March fall in the calendar year, and their lengths.
proof fn lemma_march_months(y: int, mp: int)
    requires
        0 <= mp <= 11,
    ensures
        mp <= 9 ==> days_to_month(y, mp + 3) == 59 + leap_day(y) + march_offset(mp),
        mp <= 9 ==> month_length(y, mp + 3) == (if mp == 1 || mp == 3 || mp == 6 || mp == 8 { 30nat } else { 31nat }),
        mp >= 10 ==> days_to_month(y + 1, mp - 9) == march_offset(mp) - 306,
        mp == 10 ==> month_length(y + 1, 1) == 31,
{
    reveal_with_fuel(days_to_month, 13);
    if mp == 0 {
    } else if mp == 1 {
    } else if mp == 2 {
    } else if mp == 3 {
    } else if mp == 4 {
    } else if mp == 5 {
    } else if mp == 6 {
    } else if mp == 7 {
    } else if mp == 8 {
    } else if mp == 9 {
    } else if mp == 10 {
    } else {
    }
}

/// The first of March of year `400 * era + yoe` is day `146097 * era + year_in_era_start(yoe)`
/// counted from 0000-03-01, which is 719468 days before 1970-01-01.
#[verifier::spinoff_prover]
proof fn lemma_march_first_of_era(era: int, yoe: int)
    requires
        era >= 1,
        0 <= yoe <= 399,
    ensures
        march_first(400 * era + yoe) == 146097 * era + year_in_era_start(yoe) - 719468,
{
    let x = 400 * era + yoe;
    lemma_leaps_step(x - 1);
    lemma_hoist_over_denominator(yoe, 100 * era, 4);
    lemma_hoist_over_denominator(yoe, 4 * era, 100);
    lemma_hoist_over_denominator(yoe, era, 400);
    assert(x - 1 + 1 == x);
    assert(leaps_before(1970) == 477);
}

/// The first of March moves forward by at least 365 days a year.
proof fn lemma_march_first_mono(a: int, b: int)
    requires
        1 <= a <= b,
    ensures
        march_first(a) + 365 * (b - a) <= march_first(b),
    decreases b - a,
{
    if a < b {
        lemma_march_first_mono(a, b - 1);
        lemma_leaps_step(b - 1);
    }
}

/// The date that day `doy` (counted from March) of year `yoe` of era `era` is, when it is
/// day `n` from 1970-01-01: month `mp` from March, day `d` of that month.
#[verifier::spinoff_prover]
proof fn lemma_era_date(n: int, era: int, yoe: int, doy: int, mp: int, d: int)
    requires
        n >= 0,
        era >= 1,
        0 <= yoe <= 399,
        n + 719468 == 146097 * era + year_in_era_start(yoe) + doy,
        0 <= doy <= 365,
        doy == 365 ==> (yoe + 1) % 4 == 0 && ((yoe + 1) % 100 != 0 || yoe == 399),
        0 <= mp <= 11,
        1 <= d <= 31,
        march_offset(mp) + d - 1 == doy,
        mp == 1 || mp == 3 || mp == 6 || mp == 8 ==> d <= 30,
        mp == 11 ==> d <= 28 || doy == 365,
        doy == 365 ==> mp == 11 && d == 29,
    ensures
        is_date_of(
            n as nat,
            400 * era + yoe + (if mp >= 10 { 1int } else { 0int }),
            if mp < 10 { mp + 3 } else { mp - 9 },
            d,
        ),
{
    let x = 400 * era + yoe;
    lemma_march_first_of_era(era, yoe);
    lemma_march_months(x, mp);
    assert(march_first(1969) == -306);
    assert(march_first(1968) == -671);
    if mp <= 9 {
        if x < 1970 {
            lemma_march_first_mono(x, 1969);
            assert(false);
        }
        lemma_days_to_year(x);
    } else {
        if x < 1969 {
            lemma_march_first_mono(x, 1968);
            assert(false);
        }
        lemma_days_to_year(x + 1);
        lemma_leaps_step(x);
        if mp == 11 && doy == 365 {
            let z = x + 1;
            lemma_mod_multiples_vanish(era * 100, yoe + 1, 4);
            lemma_mod_multiples_vanish(era * 4, yoe + 1, 100);
            lemma_mod_multiples_vanish(era, yoe + 1, 400);
            assert(z == 4 * (era * 100) + (yoe + 1));
            assert(z == 100 * (era * 4) + (yoe + 1));
            assert(z == 400 * era + (yoe + 1));
            assert(is_leap_year(z));
        }
    }
}

/// The calendar date (year, month, day) of a Unix timestamp, in UTC, by Howard Hinnant's
/// days-to-civil algorithm over 400-year eras counted from March.
#[verifier::spinoff_prover]
pub fn unix_to_date(timestamp: u64) -> (r: (u64, u64, u64))
    ensures
        is_date_of((timestamp / 86400) as nat, r.0 as int, r.1 as int, r.2 as int),
        (r.0 as int, r.1 as int, r.2 as int) == civil_date((timestamp / 86400) as nat),
{
    let mut days = (timestamp / 86400) as i64;
    let ghost n: int = days as int;
    days += 719468;
    let era = if days >= 0 { days } else { days - 146096 } / 146097;
    let doe = (days - era * 146097) as u64;
    let yoe = (doe - doe / 1460 + doe / 36524 - doe / 146096) / 365;
    proof {
        lemma_year_of_era(doe as u32);
    }
    let y = yoe as i64 + era * 400;
    let doy = doe - (365 * yoe + yoe / 4 - yoe / 100);
    let mp = (5 * doy + 2) / 153;
    let d = doy - (153 * mp + 2) / 5 + 1;
    proof {
        lemma_month_of_year(doy);
        lemma_era_date(n, era as int, yoe as int, doy as int, mp as int, d as int);
    }
    let m = if mp < 10 { mp + 3 } else { mp - 9 };
    let y = if m <= 2 { y + 1 } else { y };
    let r = (y as u64, m, d);
    proof {
        let t = (y as int, m as int, d as int);
        assert(is_date_of(n as nat, t.0, t.1, t.2));
        let c = civil_date(n as nat);
        lemma_date_unique(n as nat, t, c);
    }
    r
}

} // verus!

verus! {

/// Lower-case base-36 notation of `value` (`0` for zero).
pub fn base36_encode(value: u64) -> (r: String)
    ensures
        r@ == radix_text(value as nat, 36),
{
    let mut s = String::new();
    push_radix(&mut s, value, 36);
    assert(s@ =~= radix_text(value as nat, 36));
    s
}

/// `YYYY.MM.DD` of the UTC date of Unix time `secs`.
pub open spec fn date_version_text(secs: nat) -> Seq<char> {
    let c = civil_date(secs / 86400);
    decimal(c.0 as nat) + "."@ + decimal_pad2(c.1 as nat) + "."@ + decimal_pad2(c.2 as nat)
}

/// `YYYY-MM-DDTHH:MM:SSZ` of Unix time `secs`.
pub open spec fn iso_timestamp_text(secs: nat) -> Seq<char> {
    let c = civil_date(secs / 86400);
    let t = secs % 86400;
    decimal(c.0 as nat) + "-"@ + decimal_pad2(c.1 as nat) + "-"@ + decimal_pad2(c.2 as nat) + "T"@
        + decimal_pad2(t / 3600) + ":"@ + decimal_pad2((t % 3600) / 60) + ":"@ + decimal_pad2(t % 60) + "Z"@
}

/// The version string of a build made at Unix time `secs`.
pub fn date_version_at(secs: u64) -> (r: String)
    ensures
        r@ == date_version_text(secs as nat),
{
    let (year, month, day) = unix_to_date(secs);
    let mut s = String::new();
    push_decimal(&mut s, year);
    s.append(".");
    push_decimal_pad2(&mut s, month);
    s.append(".");
    push_decimal_pad2(&mut s, day);
    s
}

/// The ISO 8601 UTC timestamp of Unix time `secs`.
pub fn timestamp_at(secs: u64) -> (r: String)
    ensures
        r@ == iso_timestamp_text(secs as nat),
{
    let (year, month, day) = unix_to_date(secs);
    let day_secs = secs % 86400;
    let hour = day_secs / 3600;
    let minute = (day_secs % 3600) / 60;
    let second = day_secs % 60;
    let mut s = String::new();
    push_decimal(&mut s, year);
    s.append("-");
    push_decimal_pad2(&mut s, month);
    s.append("-");
    push_decimal_pad2(&mut s, day);
    s.append("T");
    push_decimal_pad2(&mut s, hour);
    s.append(":");
    push_decimal_pad2(&mut s, minute);
    s.append(":");
    push_decimal_pad2(&mut s, second);
    s.append("Z");
    s
}

} // verus!

verus! {

/// A build identifier: the current Unix time in seconds, in base 36.
pub fn generate_build_id() -> (r: String)
    ensures
        exists|secs: u64| r@ == #[trigger] radix_text(secs as nat, 36),
{
    let secs = unix_seconds_now();
    base36_encode(secs)
}

fn date_version() -> (r: String)
    ensures
        exists|secs: u64| r@ == #[trigger] date_version_text(secs as nat),
{
    date_version_at(unix_seconds_now())
}

fn chrono_like_now() -> (r: String)
    ensures
        exists|secs: u64| r@ == #[trigger] iso_timestamp_text(secs as nat),
{
    timestamp_at(unix_seconds_now())
}

} // verus!

verus! {

/// The category names, each in double quotes, separated by `, `.
pub open spec fn quoted_names(cs: Seq<String>) -> Seq<char>
    decreases cs.len(),
{
    if cs.len() == 0 {
        Seq::empty()
    } else if cs.len() == 1 {
        "\""@ + cs[0]@ + "\""@
    } else {
        quoted_names(cs.drop_last()) + ", \""@ + cs.last()@ + "\""@
    }
}

/// One line of the per-category statistics object.
pub open spec fn stat_line(s: (String, usize, usize)) -> Seq<char> {
    "      \""@ + s.0@ + "\": {\"exact\": "@ + decimal(s.1 as nat) + ", \"wildcard\": "@ + decimal(s.2 as nat) + "}"@
}

/// The statistics lines, separated by `,` and a newline.
pub open spec fn stat_lines(ss: Seq<(String, usize, usize)>) -> Seq<char>
    decreases ss.len(),
{
    if ss.len() == 0 {
        Seq::empty()
    } else if ss.len() == 1 {
        stat_line(ss[0])
    } else {
        stat_lines(ss.drop_last()) + ",\n"@ + stat_line(ss.last())
    }
}

/// The metadata JSON document describing a build.
pub open spec fn metadata_text(
    version: Seq<char>,
    published: Seq<char>,
    build_id: Seq<char>,
    binary_size: nat,
    sha256: Seq<char>,
    exact_count: nat,
    wildcard_count: nat,
    categories: Seq<String>,
    category_stats: Seq<(String, usize, usize)>,
) -> Seq<char> {
    "{\n  \"version\": \""@ + version + "\",\n  \"filename\": \"blocklist-"@ + build_id + ".bin.gz\",\n  \"size\": "@
        + decimal(binary_size) + ",\n  \"sha256\": \""@ + sha256 + "\",\n  \"domainCount\": "@ + decimal(exact_count + wildcard_count)
        + ",\n  \"exactCount\": "@ + decimal(exact_count) + ",\n  \"wildcardCount\": "@ + decimal(wildcard_count)
        + ",\n  \"categories\": ["@ + quoted_names(categories) + "],\n  \"categoryCount\": "@ + decimal(categories.len())
        + ",\n  \"published\": \""@ + published + "\",\n  \"minAppVersion\": \"1.0.0\",\n  \"categoryStats\": {\n"@
        + stat_lines(category_stats) + "\n    }\n}"@
}

fn push_quoted_names(s: &mut String, categories: &[String])
    ensures
        final(s)@ == old(s)@ + quoted_names(categories@),
{
    let ghost start = s@;
    let mut i: usize = 0;
    assert(quoted_names(categories@.take(0)) =~= Seq::<char>::empty());
    assert(s@ =~= start + quoted_names(categories@.take(0)));
    while i < categories.len()
        invariant
            i <= categories@.len(),
            s@ == start + quoted_names(categories@.take(i as int)),
        decreases categories@.len() - i,
    {
        proof {
            assert(categories@.take(i + 1).drop_last() =~= categories@.take(i as int));
            assert(categories@.take(i + 1).last() == categories@[i as int]);
            assert(categories@.take(i + 1)[0] == categories@[0]);
        }
        if i > 0 {
            s.append(", \"");
        } else {
            s.append("\"");
        }
        s.append(categories[i].as_str());
        s.append("\"");
        i = i + 1;
    }
    assert(categories@.take(categories@.len() as int) =~= categories@);
}

fn push_stat_lines(s: &mut String, category_stats: &[(String, usize, usize)])
    ensures
        final(s)@ == old(s)@ + stat_lines(category_stats@),
{
    let ghost start = s@;
    let mut i: usize = 0;
    assert(stat_lines(category_stats@.take(0)) =~= Seq::<char>::empty());
    assert(s@ =~= start + stat_lines(category_stats@.take(0)));
    while i < category_stats.len()
        invariant
            i <= category_stats@.len(),
            s@ == start + stat_lines(category_stats@.take(i as int)),
        decreases category_stats@.len() - i,
    {
        proof {
            assert(category_stats@.take(i + 1).drop_last() =~= category_stats@.take(i as int));
            assert(category_stats@.take(i + 1).last() == category_stats@[i as int]);
            assert(category_stats@.take(i + 1)[0] == category_stats@[0]);
        }
        if i > 0 {
            s.append(",\n");
        }
        let (category, exact, wildcard) = &category_stats[i];
        s.append("      \"");
        s.append(category.as_str());
        s.append("\": {\"exact\": ");
        push_decimal(s, *exact as u64);
        s.append(", \"wildcard\": ");
        push_decimal(s, *wildcard as u64);
        s.append("}");
        i = i + 1;
    }
    assert(category_stats@.take(category_stats@.len() as int) =~= category_stats@);
}

/// The metadata JSON of a build with the given version and publication time.
pub fn render_metadata(
    version: &str,
    published: &str,
    build_id: &str,
    binary_size: usize,
    sha256: &str,
    exact_count: usize,
    wildcard_count: usize,
    categories: &[String],
    category_stats: &[(String, usize, usize)],
) -> (r: String)
    ensures
        r@ == metadata_text(version@, published@, build_id@, binary_size as nat, sha256@, exact_count as nat,
            wildcard_count as nat, categories@, category_stats@),
{
    let mut s = String::from_str("{\n  \"version\": \"");
    s.append(version);
    s.append("\",\n  \"filename\": \"blocklist-");
    s.append(build_id);
    s.append(".bin.gz\",\n  \"size\": ");
    push_decimal(&mut s, binary_size as u64);
    s.append(",\n  \"sha256\": \"");
    s.append(sha256);
    s.append("\",\n  \"domainCount\": ");
    push_decimal_wide(&mut s, exact_count as u128 + wildcard_count as u128);
    s.append(",\n  \"exactCount\": ");
    push_decimal(&mut s, exact_count as u64);
    s.append(",\n  \"wildcardCount\": ");
    push_decimal(&mut s, wildcard_count as u64);
    s.append(",\n  \"categories\": [");
    push_quoted_names(&mut s, categories);
    s.append("],\n  \"categoryCount\": ");
    push_decimal(&mut s, categories.len() as u64);
    s.append(",\n  \"published\": \"");
    s.append(published);
    s.append("\",\n  \"minAppVersion\": \"1.0.0\",\n  \"categoryStats\": {\n");
    push_stat_lines(&mut s, category_stats);
    s.append("\n    }\n}");
    s
}

/// The metadata JSON of a build, dated by the system clock.
pub fn generate_metadata(
    build_id: &str,
    binary_size: usize,
    sha256: &str,
    exact_count: usize,
    wildcard_count: usize,
    categories: &[String],
    category_stats: &[(String, usize, usize)],
) -> (r: String)
    ensures
        exists|version: Seq<char>, published: Seq<char>|
            r@ == #[trigger] metadata_text(version, published, build_id@, binary_size as nat, sha256@, exact_count as nat,
                wildcard_count as nat, categories@, category_stats@)
            && (exists|a: u64| version == #[trigger] date_version_text(a as nat))
            && (exists|b: u64| published == #[trigger] iso_timestamp_text(b as nat)),
{
    let now = chrono_like_now();
    let version = date_version();
    render_metadata(version.as_str(), now.as_str(), build_id, binary_size, sha256, exact_count, wildcard_count, categories, category_stats)
}

} // verus!

verus! {

/// The parts, with `sep` between each two of them.
pub open spec fn join_with(parts: Seq<Seq<char>>, sep: Seq<char>) -> Seq<char>
    decreases parts.len(),
{
    if parts.len() == 0 {
        Seq::empty()
    } else if parts.len() == 1 {
        parts[0]
    } else {
        parts[0] + sep + join_with(parts.drop_first(), sep)
    }
}

/// Text in double quotes.
pub open spec fn in_quotes(s: Seq<char>) -> Seq<char> {
    "\""@ + s + "\""@
}

proof fn lemma_join_with_push(parts: Seq<Seq<char>>, x: Seq<char>, sep: Seq<char>)
    requires
        parts.len() > 0,
    ensures
        join_with(parts.push(x), sep) == join_with(parts, sep) + sep + x,
    decreases parts.len(),
{
    let q = parts.push(x);
    if parts.len() == 1 {
        assert(q.drop_first() =~= seq![x]);
        assert(join_with(q.drop_first(), sep) == x);
    } else {
        lemma_join_with_push(parts.drop_first(), x, sep);
        assert(q.drop_first() =~= parts.drop_first().push(x));
        assert(q[0] == parts[0]);
        assert(join_with(q, sep) =~= join_with(parts, sep) + sep + x);
    }
}

/// The per-category statistics of the metadata hold one line per statistics entry, in order,
/// separated by a comma and a line break.
pub proof fn lemma_stat_lines(ss: Seq<(String, usize, usize)>)
    ensures
        stat_lines(ss) == join_with(ss.map_values(|x: (String, usize, usize)| stat_line(x)), ",\n"@),
    decreases ss.len(),
{
    let ls = ss.map_values(|x: (String, usize, usize)| stat_line(x));
    if ss.len() == 0 {
        assert(ls =~= Seq::<Seq<char>>::empty());
    } else if ss.len() == 1 {
        assert(ls.len() == 1);
        assert(ls[0] == stat_line(ss[0]));
    } else {
        let p = ss.drop_last();
        lemma_stat_lines(p);
        let lp = p.map_values(|x: (String, usize, usize)| stat_line(x));
        assert(ls =~= lp.push(stat_line(ss.last())));
        lemma_join_with_push(lp, stat_line(ss.last()), ",\n"@);
    }
}

/// The category list of the metadata names every category, in order: the names, each in
/// double quotes, joined by `, `.
pub proof fn lemma_quoted_names(cs: Seq<String>)
    ensures
        quoted_names(cs) == join_with(cs.map_values(|c: String| in_quotes(c@)), ", "@),
    decreases cs.len(),
{
    let qs = cs.map_values(|c: String| in_quotes(c@));
    if cs.len() == 0 {
        assert(qs =~= Seq::<Seq<char>>::empty());
    } else if cs.len() == 1 {
        assert(qs.len() == 1);
        assert(qs[0] == in_quotes(cs[0]@));
    } else {
        let p = cs.drop_last();
        lemma_quoted_names(p);
        let qp = p.map_values(|c: String| in_quotes(c@));
        assert(qs =~= qp.push(in_quotes(cs.last()@)));
        lemma_join_with_push(qp, in_quotes(cs.last()@), ", "@);
        reveal_strlit(", \"");
        reveal_strlit(", ");
        reveal_strlit("\"");
        assert(", \""@ =~= ", "@ + "\""@);
        assert(quoted_names(cs) =~= join_with(qp, ", "@) + ", "@ + in_quotes(cs.last()@));
    }
}

} // verus!
