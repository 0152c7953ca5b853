//! Calendar dates and weekdays, backed by `jiff`'s civil calendar.

use vstd::prelude::*;

verus! {

/// Leap years of the proleptic Gregorian calendar.
pub open spec fn is_leap_year(year: int) -> bool {
    year % 4 == 0 && (year % 100 != 0 || year % 400 == 0)
}

/// Number of days in `month` of `year`.
pub open spec fn days_in_month(year: int, month: int) -> int {
    if month == 2 {
        if is_leap_year(year) { 29 } else { 28 }
    } else if month == 4 || month == 6 || month == 9 || month == 11 {
        30
    } else {
        31
    }
}

/// A (year, month, day) triple that names a real date in the range that
/// `jiff` supports (years -9999 through 9999).
pub open spec fn is_valid_date(d: (int, int, int)) -> bool {
    &&& -9999 <= d.0 <= 9999
    &&& 1 <= d.1 <= 12
    &&& 1 <= d.2 <= days_in_month(d.0, d.1)
}

/// The date after `d`, or `None` past the last supported date 9999-12-31.
pub open spec fn next_date(d: (int, int, int)) -> Option<(int, int, int)> {
    if d.2 < days_in_month(d.0, d.1) {
        Some((d.0, d.1, d.2 + 1))
    } else if d.1 < 12 {
        Some((d.0, d.1 + 1, 1))
    } else if d.0 < 9999 {
        Some((d.0 + 1, 1, 1))
    } else {
        None
    }
}

/// Whether date `a` comes before date `b`.
pub open spec fn date_before(a: (int, int, int), b: (int, int, int)) -> bool {
    a.0 < b.0 || (a.0 == b.0 && (a.1 < b.1 || (a.1 == b.1 && a.2 < b.2)))
}

/// The next date of a valid date is a valid, later date; only 9999-12-31
/// has none.
pub proof fn lemma_next_date(d: (int, int, int))
    requires
        is_valid_date(d),
    ensures
        next_date(d) is None <==> d == (9999int, 12int, 31int),
        next_date(d) matches Some(t) ==> is_valid_date(t) && date_before(d, t),
{
}

/// The number of days from 0001-01-01 to the first day of `year`
/// (negative for earlier years).
pub open spec fn days_before_year(year: int) -> int {
    let y = year - 1;
    365 * y + y / 4 - y / 100 + y / 400
}

/// The number of days from the first day of `year` to the first day of
/// `month`.
pub open spec fn days_before_month(year: int, month: int) -> int {
    let leap_day = if is_leap_year(year) && month > 2 { 1int } else { 0int };
    leap_day + if month == 1 {
        0int
    } else if month == 2 {
        31
    } else if month == 3 {
        59
    } else if month == 4 {
        90
    } else if month == 5 {
        120
    } else if month == 6 {
        151
    } else if month == 7 {
        181
    } else if month == 8 {
        212
    } else if month == 9 {
        243
    } else if month == 10 {
        273
    } else if month == 11 {
        304
    } else {
        334
    }
}

/// The number of days from 0001-01-01 to `d` in the proleptic Gregorian
/// calendar.
#[verifier::opaque]
pub open spec fn day_number(d: (int, int, int)) -> int {
    days_before_year(d.0) + days_before_month(d.0, d.1) + d.2 - 1
}

/// The weekday of a date, numbered from Monday = 1 to Sunday = 7:
/// 0001-01-01 of the proleptic Gregorian calendar was a Monday.
pub open spec fn weekday_number(year: int, month: int, day: int) -> int {
    day_number((year, month, day)) % 7 + 1
}

/// The weekday of a date given as a triple.
pub open spec fn weekday_of(d: (int, int, int)) -> int {
    weekday_number(d.0, d.1, d.2)
}

proof fn lemma_days_before_next_year(year: int)
    ensures
        days_before_year(year + 1) == days_before_year(year) + 365 + if is_leap_year(year) { 1int } else { 0int },
{
    let y = year - 1;
    assert((y + 1) / 4 == y / 4 + if year % 4 == 0 { 1int } else { 0int });
    assert((y + 1) / 100 == y / 100 + if year % 100 == 0 { 1int } else { 0int });
    assert((y + 1) / 400 == y / 400 + if year % 400 == 0 { 1int } else { 0int });
}

proof fn lemma_days_before_year_increasing(a: int, b: int)
    requires
        a <= b,
    ensures
        days_before_year(a) <= days_before_year(b),
    decreases b - a,
{
    if a < b {
        lemma_days_before_year_increasing(a, b - 1);
        lemma_days_before_next_year(b - 1);
    }
}

/// A valid date before the year 9999 lies at least a year before the last
/// date, 9999-12-31.
pub proof fn lemma_year_before_end(d: (int, int, int))
    requires
        is_valid_date(d),
        d.0 < 9999,
    ensures
        day_number(d) + 365 <= day_number((9999int, 12int, 31int)),
{
    reveal(day_number);
    lemma_days_before_next_year(d.0);
    lemma_days_before_year_increasing(d.0 + 1, 9999);
}

/// The next date is one day later, and falls on the next weekday.
pub proof fn lemma_next_weekday(d: (int, int, int))
    requires
        is_valid_date(d),
        next_date(d) is Some,
    ensures
        day_number(next_date(d)->0) == day_number(d) + 1,
        weekday_of(next_date(d)->0) == weekday_of(d) % 7 + 1,
{
    reveal(day_number);
    if d.2 == days_in_month(d.0, d.1) && d.1 == 12 {
        lemma_days_before_next_year(d.0);
    }
}

/// The (year, month, day) of the zoned date-time that `jiff` parses from
/// `text`, or `None` where `jiff` rejects the text.
pub uninterp spec fn zoned_text_date(text: Seq<char>) -> Option<(int, int, int)>;

/// Day of the week.
#[derive(Clone, Copy, Debug, PartialEq, Eq, Structural)]
pub enum Weekday {
    Monday,
    Tuesday,
    Wednesday,
    Thursday,
    Friday,
    Saturday,
    Sunday,
}

impl Weekday {
    /// Monday = 1, ..., Sunday = 7.
    pub open spec fn number(self) -> int {
        match self {
            Weekday::Monday => 1,
            Weekday::Tuesday => 2,
            Weekday::Wednesday => 3,
            Weekday::Thursday => 4,
            Weekday::Friday => 5,
            Weekday::Saturday => 6,
            Weekday::Sunday => 7,
        }
    }

    /// The weekday with the given Monday-based number.
    pub fn from_number(n: i8) -> (w: Weekday)
        requires
            1 <= n <= 7,
        ensures
            w.number() == n,
    {
        if n == 1 {
            Weekday::Monday
        } else if n == 2 {
            Weekday::Tuesday
        } else if n == 3 {
            Weekday::Wednesday
        } else if n == 4 {
            Weekday::Thursday
        } else if n == 5 {
            Weekday::Friday
        } else if n == 6 {
            Weekday::Saturday
        } else {
            Weekday::Sunday
        }
    }

    /// Whether this is Saturday or Sunday.
    pub fn is_weekend(self) -> (b: bool)
        ensures
            b == (self.number() >= 6),
    {
        match self {
            Weekday::Saturday | Weekday::Sunday => true,
            _ => false,
        }
    }
}

/// The English name of a weekday.
pub open spec fn weekday_name(w: Weekday) -> Seq<char> {
    match w {
        Weekday::Monday => "Monday"@,
        Weekday::Tuesday => "Tuesday"@,
        Weekday::Wednesday => "Wednesday"@,
        Weekday::Thursday => "Thursday"@,
        Weekday::Friday => "Friday"@,
        Weekday::Saturday => "Saturday"@,
        Weekday::Sunday => "Sunday"@,
    }
}

/// The English name of `w`.
pub fn get_weekday(w: Weekday) -> (name: String)
    ensures
        name@ == weekday_name(w),
{
    match w {
        Weekday::Monday => String::from_str("Monday"),
        Weekday::Tuesday => String::from_str("Tuesday"),
        Weekday::Wednesday => String::from_str("Wednesday"),
        Weekday::Thursday => String::from_str("Thursday"),
        Weekday::Friday => String::from_str("Friday"),
        Weekday::Saturday => String::from_str("Saturday"),
        Weekday::Sunday => String::from_str("Sunday"),
    }
}

/// The English names of the days of the week, Monday first.
pub open spec fn english_weekdays() -> Seq<Seq<char>> {
    seq!["Monday"@, "Tuesday"@, "Wednesday"@, "Thursday"@, "Friday"@, "Saturday"@, "Sunday"@]
}

/// Every weekday is named in English after its place in the week: the
/// `n`-th day from Monday gets the `n`-th of Monday, Tuesday, Wednesday,
/// Thursday, Friday, Saturday, Sunday.
pub proof fn lemma_weekday_names(w: Weekday)
    ensures
        1 <= w.number() <= 7,
        weekday_name(w) == english_weekdays()[w.number() - 1],
        w == Weekday::Monday ==> weekday_name(w) == "Monday"@,
        w == Weekday::Tuesday ==> weekday_name(w) == "Tuesday"@,
        w == Weekday::Wednesday ==> weekday_name(w) == "Wednesday"@,
        w == Weekday::Thursday ==> weekday_name(w) == "Thursday"@,
        w == Weekday::Friday ==> weekday_name(w) == "Friday"@,
        w == Weekday::Saturday ==> weekday_name(w) == "Saturday"@,
        w == Weekday::Sunday ==> weekday_name(w) == "Sunday"@,
{
}

/// A civil calendar date. Every value names a real date in `jiff`'s range.
#[derive(Clone, Copy, Debug, PartialEq, Eq, Structural)]
pub struct Date {
    year: i16,
    month: i8,
    day: i8,
}

impl View for Date {
    type V = (int, int, int);

    closed spec fn view(&self) -> (int, int, int) {
        (self.year as int, self.month as int, self.day as int)
    }
}

/// Number of days in a month, on machine integers.
fn month_length(year: i16, month: i8) -> (n: i8)
    requires
        1 <= month <= 12,
    ensures
        n as int == days_in_month(year as int, month as int),
{
    if month == 2 {
        let y: i32 = if year < 0 { -(year as i32) } else { year as i32 };
        assert(y % 4 == 0 <==> (year as int) % 4 == 0);
        assert(y % 100 == 0 <==> (year as int) % 100 == 0);
        assert(y % 400 == 0 <==> (year as int) % 400 == 0);
        if y % 4 == 0 && (y % 100 != 0 || y % 400 == 0) {
            29
        } else {
            28
        }
    } else if month == 4 || month == 6 || month == 9 || month == 11 {
        30
    } else {
        31
    }
}

/// `jiff::civil::Date::weekday`, read as `Weekday::to_monday_one_offset`:
/// trusted to give the weekday of the proleptic Gregorian calendar, Monday
/// = 1 through Sunday = 7, as those methods document. The `jiff` date is built with
/// `jiff::civil::Date::new`, which succeeds on every valid date.
#[verifier::external_body]
fn jiff_weekday(d: &Date) -> (n: i8)
    requires
        is_valid_date(d@),
    ensures
        n as int == weekday_number(d@.0, d@.1, d@.2),
{
    jiff::civil::Date::new(d.year, d.month, d.day).unwrap().weekday().to_monday_one_offset()
}

/// `jiff::civil::Date::tomorrow`: trusted to give the next date of the
/// proleptic Gregorian calendar, and an error only on 9999-12-31, as its
/// documentation states; the date it gives is a valid `Date`.
#[verifier::external_body]
fn jiff_tomorrow(d: &Date) -> (r: Option<Date>)
    requires
        is_valid_date(d@),
    ensures
        match r {
            Some(t) => next_date(d@) == Some(t@),
            None => next_date(d@) is None,
        },
{
    let t = jiff::civil::Date::new(d.year, d.month, d.day).unwrap().tomorrow().ok()?;
    Some(Date { year: t.year(), month: t.month(), day: t.day() })
}

/// `<jiff::Zoned as FromStr>::from_str`, keeping the civil date of the
/// parsed value (`Zoned::year`, `month`, `day`): trusted to give the name
/// `zoned_text_date` of the text, and a valid `Date`. This crate enables
/// only `jiff`'s bundled time zone database, so the result depends on the
/// text alone; a build that also enabled `jiff`'s system time zone features
/// would read the system database instead. The time of day and the time
/// zone of the parsed value are dropped.
#[verifier::external_body]
pub(crate) fn jiff_parse_zoned_date(text: &str) -> (r: Option<Date>)
    ensures
        match r {
            Some(d) => zoned_text_date(text@) == Some(d@),
            None => zoned_text_date(text@) is None,
        },
{
    let z = text.parse::<jiff::Zoned>().ok()?;
    Some(Date { year: z.year(), month: z.month(), day: z.day() })
}

impl Date {
    #[verifier::type_invariant]
    closed spec fn well_formed(self) -> bool {
        is_valid_date(self@)
    }

    /// The date `year`-`month`-`day`, or `None` where it is no real date
    /// in the supported range.
    pub fn new(year: i16, month: i8, day: i8) -> (r: Option<Date>)
        ensures
            r is Some <==> is_valid_date((year as int, month as int, day as int)),
            r matches Some(d) ==> d@ == (year as int, month as int, day as int),
    {
        if -9999 <= year && year <= 9999 && 1 <= month && month <= 12 && 1 <= day
            && day <= month_length(year, month) {
            Some(Date { year, month, day })
        } else {
            None
        }
    }

    /// Every `Date` is a valid date of the calendar.
    pub fn is_valid(&self) -> (b: bool)
        ensures
            b,
            is_valid_date(self@),
    {
        proof {
            use_type_invariant(self);
        }
        true
    }

    pub fn year(&self) -> (y: i16)
        ensures
            y as int == self@.0,
    {
        self.year
    }

    pub fn month(&self) -> (m: i8)
        ensures
            m as int == self@.1,
    {
        self.month
    }

    pub fn day(&self) -> (d: i8)
        ensures
            d as int == self@.2,
    {
        self.day
    }

    /// Whether both denote the same date.
    pub fn same_day(&self, other: &Date) -> (b: bool)
        ensures
            b == (self@ == other@),
    {
        self.year == other.year && self.month == other.month && self.day == other.day
    }

    /// The day of the week of this date.
    pub fn weekday(&self) -> (w: Weekday)
        ensures
            w.number() == weekday_number(self@.0, self@.1, self@.2),
    {
        proof {
            use_type_invariant(self);
        }
        let n = jiff_weekday(self);
        Weekday::from_number(n)
    }

    /// The following date, or `None` after 9999-12-31.
    pub fn tomorrow(&self) -> (r: Option<Date>)
        ensures
            match r {
                Some(t) => next_date(self@) == Some(t@),
                None => next_date(self@) is None,
            },
    {
        proof {
            use_type_invariant(self);
        }
        jiff_tomorrow(self)
    }
}

} // verus!
