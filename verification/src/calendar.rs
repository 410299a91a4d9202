//! Calendar dates: the day number of a date and the parsing of `YYYY-MM-DD`.
use vstd::prelude::*;

verus! {

/// Whether `x` is a value of `i64`.
pub open spec fn fits_i64(x: int) -> bool {
    i64::MIN <= x <= i64::MAX
}

/// Integer division rounding toward zero, as Rust's `/` does, for `b > 0`.
pub open spec fn tdiv(a: int, b: int) -> int {
    if a >= 0 {
        a / b
    } else {
        -((-a) / b)
    }
}

/// The steps of the day-number computation, in the order they are evaluated:
/// (shifted year, era dividend, era, year of era, shifted month, 153 * month,
/// day of year, day of era).
pub open spec fn civil_parts(y: int, m: int, d: int) -> (int, int, int, int, int, int, int, int) {
    let y1 = if m <= 2 { y - 1 } else { y };
    let e0 = if y1 >= 0 { y1 } else { y1 - 399 };
    let era = tdiv(e0, 400);
    let yoe = y1 - era * 400;
    let mp = if m > 2 { m - 3 } else { m + 9 };
    let t = 153 * mp;
    let doy = tdiv(t + 2, 5) + d - 1;
    let doe = yoe * 365 + tdiv(yoe, 4) - tdiv(yoe, 100) + doy;
    (y1, e0, era, yoe, mp, t, doy, doe)
}

/// The day number that `days_from_civil` computes: days since 1970-01-01 in
/// the proleptic Gregorian calendar for a real date, and the same formula's
/// value for any other month or day.
pub open spec fn civil_day(y: int, m: int, d: int) -> int {
    let p = civil_parts(y, m, d);
    p.2 * 146097 + p.7 - 719468
}

/// Whether every intermediate value of the day-number computation fits `i64`.
pub open spec fn civil_fits(y: int, m: int, d: int) -> bool {
    let p = civil_parts(y, m, d);
    let (y1, e0, era, yoe, mp, t, doy, doe) = p;
    &&& fits_i64(y1)
    &&& fits_i64(e0)
    &&& fits_i64(era * 400)
    &&& fits_i64(yoe)
    &&& fits_i64(mp)
    &&& fits_i64(t)
    &&& fits_i64(t + 2)
    &&& fits_i64(tdiv(t + 2, 5) + d)
    &&& fits_i64(doy)
    &&& fits_i64(yoe * 365)
    &&& fits_i64(yoe * 365 + tdiv(yoe, 4))
    &&& fits_i64(yoe * 365 + tdiv(yoe, 4) - tdiv(yoe, 100))
    &&& fits_i64(doe)
    &&& fits_i64(era * 146097)
    &&& fits_i64(era * 146097 + doe)
    &&& fits_i64(era * 146097 + doe - 719468)
}

/// Days since 1970-01-01 of the date `y`-`m`-`d` (proleptic Gregorian).
pub fn days_from_civil(y: i64, m: i64, d: i64) -> (r: i64)
    requires
        civil_fits(y as int, m as int, d as int),
    ensures
        r == civil_day(y as int, m as int, d as int),
{
    let y = if m <= 2 { y - 1 } else { y };
    let era = if y >= 0 { y } else { y - 399 } / 400;
    let yoe = y - era * 400;
    let mp = if m > 2 { m - 3 } else { m + 9 };
    let doy = (153 * mp + 2) / 5 + d - 1;
    let doe = yoe * 365 + yoe / 4 - yoe / 100 + doy;
    era * 146097 + doe - 719468
}


/// Leap years of the Gregorian calendar.
pub open spec fn is_leap(y: int) -> bool {
    y % 4 == 0 && (y % 100 != 0 || y % 400 == 0)
}

/// The number of days of month `m` of year `y`.
pub open spec fn days_in_month(y: int, m: int) -> int {
    if m == 2 {
        if is_leap(y) {
            29
        } else {
            28
        }
    } else if m == 4 || m == 6 || m == 9 || m == 11 {
        30
    } else {
        31
    }
}

/// `y`-`m`-`d` is a day of the calendar.
pub open spec fn is_real_date(y: int, m: int, d: int) -> bool {
    1 <= m <= 12 && 1 <= d <= days_in_month(y, m)
}

/// The calendar day after `y`-`m`-`d`.
pub open spec fn next_date(y: int, m: int, d: int) -> (int, int, int) {
    if d < days_in_month(y, m) {
        (y, m, d + 1)
    } else if m < 12 {
        (y, m + 1, 1)
    } else {
        (y + 1, 1, 1)
    }
}

/// The day number in floor-division form, for a month between 1 and 12.
spec fn civil_floor_form(y: int, m: int, d: int) -> int {
    let y1 = if m <= 2 { y - 1 } else { y };
    let mp = if m > 2 { m - 3 } else { m + 9 };
    let yoe = y1 % 400;
    (y1 / 400) * 146097 + yoe * 365 + yoe / 4 - yoe / 100 + (153 * mp + 2) / 5 + d - 1 - 719468
}

proof fn lemma_era_floor(y1: int)
    ensures
        tdiv(if y1 >= 0 { y1 } else { y1 - 399 }, 400) == y1 / 400,
        y1 - (y1 / 400) * 400 == y1 % 400,
        0 <= y1 % 400 < 400,
{
    let q = y1 / 400;
    let r = y1 % 400;
    vstd::arithmetic::div_mod::lemma_fundamental_div_mod(y1, 400);
    assert(y1 == 400 * q + r && 0 <= r < 400);
    if y1 < 0 {
        let a = 399 - y1;
        assert(a == 400 * (-q) + (399 - r));
        vstd::arithmetic::div_mod::lemma_fundamental_div_mod_converse(a, 400, -q, 399 - r);
        assert(a / 400 == -q);
    }
}

proof fn lemma_civil_floor_form(y: int, m: int, d: int)
    requires
        1 <= m <= 12,
    ensures
        civil_day(y, m, d) == civil_floor_form(y, m, d),
{
    let y1 = if m <= 2 { y - 1 } else { y };
    lemma_era_floor(y1);
}

/// The day after any calendar date has the next day number, so day numbers
/// of consecutive days are consecutive integers.
pub proof fn lemma_next_date_is_next_day(y: int, m: int, d: int)
    requires
        is_real_date(y, m, d),
    ensures
        is_real_date(next_date(y, m, d).0, next_date(y, m, d).1, next_date(y, m, d).2),
        civil_day(next_date(y, m, d).0, next_date(y, m, d).1, next_date(y, m, d).2) == civil_day(y, m, d) + 1,
{
    let n = next_date(y, m, d);
    lemma_civil_floor_form(y, m, d);
    lemma_civil_floor_form(n.0, n.1, n.2);
    if d == days_in_month(y, m) && m == 2 {
        lemma_end_of_february(y);
    }
}

/// Stepping `r` to `r + 1` adds one to `r / k` exactly when `k` divides `r + 1`.
proof fn lemma_div_step(r: int, k: int)
    requires
        0 <= r,
        0 < k,
    ensures
        (r + 1) / k - r / k == (if (r + 1) % k == 0 { 1int } else { 0int }),
{
    vstd::arithmetic::div_mod::lemma_fundamental_div_mod(r, k);
    vstd::arithmetic::div_mod::lemma_fundamental_div_mod(r + 1, k);
    let q = r / k;
    let m = r % k;
    assert(r == k * q + m);
    assert(0 <= m < k);
    if m == k - 1 {
        assert(r + 1 == (q + 1) * k + 0) by (nonlinear_arith)
            requires
                r == k * q + m,
                m == k - 1,
        ;
        vstd::arithmetic::div_mod::lemma_fundamental_div_mod_converse(r + 1, k, q + 1, 0);
    } else {
        assert(r + 1 == q * k + (m + 1)) by (nonlinear_arith)
            requires
                r == k * q + m,
        ;
        vstd::arithmetic::div_mod::lemma_fundamental_div_mod_converse(r + 1, k, q, m + 1);
    }
}

/// The last day of February is followed by March 1, one day later.
#[verifier::rlimit(40)]
proof fn lemma_end_of_february(y: int)
    ensures
        civil_floor_form(y, 3, 1) == civil_floor_form(y, 2, days_in_month(y, 2)) + 1,
{
    let yy = y - 1;
    let q = yy / 400;
    let r = yy % 400;
    vstd::arithmetic::div_mod::lemma_fundamental_div_mod(yy, 400);
    let last = days_in_month(y, 2);
    assert(civil_floor_form(y, 2, last) == q * 146097 + r * 365 + r / 4 - r / 100 + 337 + last - 1 - 719468);
    if r < 399 {
        vstd::arithmetic::div_mod::lemma_fundamental_div_mod_converse(y, 400, q, r + 1);
        assert(y / 400 == q && y % 400 == r + 1);
        assert(civil_floor_form(y, 3, 1) == q * 146097 + (r + 1) * 365 + (r + 1) / 4 - (r + 1) / 100 - 719468);
        lemma_div_step(r, 4);
        lemma_div_step(r, 100);
        vstd::arithmetic::div_mod::lemma_fundamental_div_mod(y, 4);
        vstd::arithmetic::div_mod::lemma_fundamental_div_mod(y, 100);
        vstd::arithmetic::div_mod::lemma_fundamental_div_mod(r + 1, 4);
        vstd::arithmetic::div_mod::lemma_fundamental_div_mod(r + 1, 100);
        assert(y % 4 == (r + 1) % 4) by {
            vstd::arithmetic::div_mod::lemma_fundamental_div_mod_converse(
                y,
                4,
                q * 100 + (r + 1) / 4,
                (r + 1) % 4,
            );
        }
        assert(y % 100 == (r + 1) % 100) by {
            vstd::arithmetic::div_mod::lemma_fundamental_div_mod_converse(
                y,
                100,
                q * 4 + (r + 1) / 100,
                (r + 1) % 100,
            );
        }
        assert((r + 1) % 100 == 0 ==> (r + 1) % 4 == 0) by {
            if (r + 1) % 100 == 0 {
                vstd::arithmetic::div_mod::lemma_fundamental_div_mod_converse(r + 1, 4, ((r + 1) / 100) * 25, 0);
            }
        }
    } else {
        vstd::arithmetic::div_mod::lemma_fundamental_div_mod_converse(y, 400, q + 1, 0);
        assert(y / 400 == q + 1 && y % 400 == 0);
        vstd::arithmetic::div_mod::lemma_fundamental_div_mod_converse(y, 4, (q + 1) * 100, 0);
        vstd::arithmetic::div_mod::lemma_fundamental_div_mod_converse(y, 100, (q + 1) * 4, 0);
        assert(last == 29);
        assert(civil_floor_form(y, 3, 1) == (q + 1) * 146097 - 719468);
    }
}

/// 1970-01-01 is day zero.
pub proof fn lemma_epoch_is_day_zero()
    ensures
        civil_day(1970, 1, 1) == 0,
{
    lemma_civil_floor_form(1970, 1, 1);
}


/// Whether year `y` is a leap year.
pub fn is_leap_year(y: i64) -> (r: bool)
    ensures
        r == is_leap(y as int),
{
    y % 4 == 0 && (y % 100 != 0 || y % 400 == 0)
}

/// The number of days of month `m` (1 to 12) of year `y`.
pub fn month_length(y: i64, m: i64) -> (r: i64)
    ensures
        r == days_in_month(y as int, m as int),
{
    if m == 2 {
        if is_leap_year(y) {
            29
        } else {
            28
        }
    } else if m == 4 || m == 6 || m == 9 || m == 11 {
        30
    } else {
        31
    }
}

/// The pieces of `s` between the `-` separators, as `str::split('-')`
/// yields them.
pub open spec fn split_dash(s: Seq<char>) -> Seq<Seq<char>>
    decreases s.len(),
{
    if s.len() == 0 {
        seq![Seq::<char>::empty()]
    } else {
        let p = split_dash(s.drop_last());
        if s.last() == '-' {
            p.push(Seq::<char>::empty())
        } else {
            p.update(p.len() - 1, p.last().push(s.last()))
        }
    }
}

/// An ASCII decimal digit.
pub open spec fn is_digit(c: char) -> bool {
    48 <= c as int <= 57
}

/// Every character of `t` is a decimal digit.
pub open spec fn all_digits(t: Seq<char>) -> bool {
    forall|i: int| 0 <= i < t.len() ==> is_digit(#[trigger] t[i])
}

/// The number that the decimal digits `t` write.
pub open spec fn digits_value(t: Seq<char>) -> int
    decreases t.len(),
{
    if t.len() == 0 {
        0
    } else {
        digits_value(t.drop_last()) * 10 + (t.last() as int - 48)
    }
}

/// What `str::parse::<i64>` gives for a text without `-`: an optional `+`
/// and then at least one decimal digit, with a value that fits `i64`.
pub open spec fn parse_i64_spec(t: Seq<char>) -> Option<int> {
    let body = if t.len() > 0 && t[0] == '+' { t.drop_first() } else { t };
    if body.len() > 0 && all_digits(body) && digits_value(body) <= i64::MAX {
        Some(digits_value(body))
    } else {
        None
    }
}

/// The year, month and day written `Y-M-D`: exactly three dash-separated
/// numbers that form a calendar date.
pub open spec fn date_fields_spec(s: Seq<char>) -> Option<(int, int, int)> {
    let parts = split_dash(s);
    if parts.len() != 3 {
        None
    } else {
        match (parse_i64_spec(parts[0]), parse_i64_spec(parts[1]), parse_i64_spec(parts[2])) {
            (Some(y), Some(m), Some(d)) => if is_real_date(y, m, d) {
                Some((y, m, d))
            } else {
                None
            },
            _ => None,
        }
    }
}

/// The day number of the date `s` writes, where it writes one.
pub open spec fn parse_date_spec(s: Seq<char>) -> Option<int> {
    match date_fields_spec(s) {
        Some((y, m, d)) => Some(civil_day(y, m, d)),
        None => None,
    }
}

/// The day number of the date `s` writes can be computed in `i64`.
pub open spec fn date_in_range(s: Seq<char>) -> bool {
    match date_fields_spec(s) {
        Some((y, m, d)) => civil_fits(y, m, d),
        None => true,
    }
}

proof fn lemma_digits_value_nonneg(t: Seq<char>)
    requires
        all_digits(t),
    ensures
        digits_value(t) >= 0,
    decreases t.len(),
{
    if t.len() > 0 {
        assert(all_digits(t.drop_last()));
        lemma_digits_value_nonneg(t.drop_last());
        assert(is_digit(t[t.len() - 1]));
    }
}

/// Parses a text without `-` as `str::parse::<i64>` does.
fn parse_i64_chars(t: &[char]) -> (r: Option<i64>)
    ensures
        r is Some == parse_i64_spec(t@) is Some,
        r matches Some(v) ==> v == parse_i64_spec(t@)->0,
{
    let start: usize = if t.len() > 0 && t[0] == '+' { 1 } else { 0 };
    let ghost body = if t@.len() > 0 && t@[0] == '+' { t@.drop_first() } else { t@ };
    assert(body =~= t@.subrange(start as int, t@.len() as int));
    if start == t.len() {
        return None;
    }
    let mut acc: i128 = 0;
    let mut over = false;
    let mut k = start;
    assert(t@.subrange(start as int, start as int) =~= Seq::<char>::empty());
    while k < t.len()
        invariant
            start <= k <= t@.len(),
            body == (if t@.len() > 0 && t@[0] == '+' { t@.drop_first() } else { t@ }),
            body =~= t@.subrange(start as int, t@.len() as int),
            all_digits(t@.subrange(start as int, k as int)),
            !over ==> acc == digits_value(t@.subrange(start as int, k as int)) && 0 <= acc <= i64::MAX,
            over ==> digits_value(t@.subrange(start as int, k as int)) > i64::MAX,
        decreases t@.len() - k,
    {
        let c = t[k];
        let ghost prefix = t@.subrange(start as int, k as int);
        let ghost next = t@.subrange(start as int, k + 1);
        assert(next =~= prefix.push(c));
        assert(next.drop_last() =~= prefix);
        if !(c >= '0' && c <= '9') {
            assert(!is_digit(c));
            assert(body[k - start] == c);
            assert(!is_digit(body[k - start]));
            assert(!all_digits(body));
            assert(parse_i64_spec(t@) is None);
            return None;
        }
        let digit = (c as u32 - 48) as i128;
        proof {
            lemma_digits_value_nonneg(prefix);
        }
        if !over {
            acc = acc * 10 + digit;
            if acc > i64::MAX as i128 {
                over = true;
            }
        }
        k = k + 1;
    }
    assert(t@.subrange(start as int, t@.len() as int) =~= body);
    if over {
        None
    } else {
        Some(acc as i64)
    }
}

/// The year, month and day of a `YYYY-MM-DD` text that names a calendar
/// day: three dash-separated `i64` numbers, month 1 to 12, day within the
/// month.
pub fn date_fields(text: &str) -> (r: Option<(i64, i64, i64)>)
    ensures
        r is Some == date_fields_spec(text@) is Some,
        r matches Some((y, m, d)) ==> date_fields_spec(text@) == Some((y as int, m as int, d as int)),
{
    let cs = crate::text::chars_of(text);
    let mut done: Vec<Vec<char>> = Vec::new();
    let mut current: Vec<char> = Vec::new();
    for i in 0..cs.len()
        invariant
            cs@ == text@,
            split_dash(cs@.take(i as int)) == done@.map_values(|v: Vec<char>| v@).push(current@),
    {
        let c = cs[i];
        proof {
            assert(cs@.take(i + 1).drop_last() =~= cs@.take(i as int));
            assert(cs@.take(i + 1).last() == c);
        }
        if c == '-' {
            let mut piece: Vec<char> = Vec::new();
            std::mem::swap(&mut piece, &mut current);
            done.push(piece);
            assert(done@.map_values(|v: Vec<char>| v@).push(current@) =~= split_dash(cs@.take(i + 1)));
        } else {
            let ghost before = current@;
            current.push(c);
            assert(done@.map_values(|v: Vec<char>| v@).push(current@) =~= split_dash(cs@.take(i + 1)));
        }
    }
    assert(cs@.take(cs@.len() as int) =~= cs@);
    let ghost parts = split_dash(text@);
    if done.len() != 2 {
        return None;
    }
    assert(parts[0] == done@[0]@);
    assert(parts[1] == done@[1]@);
    assert(parts[2] == current@);
    let y = match parse_i64_chars(done[0].as_slice()) {
        Some(v) => v,
        None => return None,
    };
    let m = match parse_i64_chars(done[1].as_slice()) {
        Some(v) => v,
        None => return None,
    };
    let d = match parse_i64_chars(current.as_slice()) {
        Some(v) => v,
        None => return None,
    };
    if m < 1 || m > 12 || d < 1 || d > month_length(y, m) {
        return None;
    }
    Some((y, m, d))
}

/// Days since 1970-01-01 of the date a `YYYY-MM-DD` text names, or `None`
/// when the text is not three dash-separated numbers forming a calendar day.
pub fn parse_date(text: &str) -> (r: Option<i64>)
    requires
        date_in_range(text@),
    ensures
        r is Some == parse_date_spec(text@) is Some,
        r matches Some(v) ==> v == parse_date_spec(text@)->0,
{
    match date_fields(text) {
        Some((y, m, d)) => Some(days_from_civil(y, m, d)),
        None => None,
    }
}

/// Whether the day number of `y`-`m`-`d` can be computed in `i64`.
pub fn civil_in_range(y: i64, m: i64, d: i64) -> (r: bool)
    ensures
        r == civil_fits(y as int, m as int, d as int),
{
    let lo: i128 = i64::MIN as i128;
    let hi: i128 = i64::MAX as i128;
    let y = y as i128;
    let m = m as i128;
    let d = d as i128;
    let y1 = if m <= 2 { y - 1 } else { y };
    let e0 = if y1 >= 0 { y1 } else { y1 - 399 };
    let era = e0 / 400;
    let yoe = y1 - era * 400;
    let mp = if m > 2 { m - 3 } else { m + 9 };
    let t = 153 * mp;
    let t2 = t + 2;
    let td = t2 / 5 + d;
    let doy = td - 1;
    let a = yoe * 365;
    let b = a + yoe / 4;
    let c = b - yoe / 100;
    let doe = c + doy;
    let e = era * 146097;
    let f = e + doe;
    let g = f - 719468;
    let ok = |x: i128| -> (o: bool)
        ensures
            o == fits_i64(x as int),
        { lo <= x && x <= hi };
    ok(y1) && ok(e0) && ok(era * 400) && ok(yoe) && ok(mp) && ok(t) && ok(t2) && ok(td) && ok(doy)
        && ok(a) && ok(b) && ok(c) && ok(doe) && ok(e) && ok(f) && ok(g)
}


/// Whether the day number of the date `text` writes, if it writes one, can
/// be computed in `i64` (so `parse_date` accepts it).
pub fn date_in_range_of(text: &str) -> (r: bool)
    ensures
        r == date_in_range(text@),
{
    match date_fields(text) {
        Some((y, m, d)) => civil_in_range(y, m, d),
        None => true,
    }
}

} // verus!
