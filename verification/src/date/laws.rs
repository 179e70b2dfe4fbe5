//! Laws of the calendar.

use vstd::prelude::*;

use crate::date;

verus! {

/// Days are counted from 1970-01-01. After each day comes the next, after the
/// last day of a month the first of the next one, and after the last day of a
/// year the first of the next; February has a 29th day in every fourth year,
/// but of the hundredth years only in every fourth.
pub proof fn law_calendar(y: int, m: int, d: int)
    requires
        1 <= m <= 12,
    ensures
        date::day_number(1970, 1, 1) == 0,
        date::day_number(y, m, d + 1) == date::day_number(y, m, d) + 1,
        m == 1 || m == 3 || m == 5 || m == 7 || m == 8 || m == 10 ==> date::day_number(y, m + 1, 1)
            == date::day_number(y, m, 31) + 1,
        m == 4 || m == 6 || m == 9 || m == 11 ==> date::day_number(y, m + 1, 1)
            == date::day_number(y, m, 30) + 1,
        y % 4 != 0 || (y % 100 == 0 && y % 400 != 0) ==> date::day_number(y, 3, 1)
            == date::day_number(y, 2, 28) + 1,
        y % 4 == 0 && (y % 100 != 0 || y % 400 == 0) ==> date::day_number(y, 3, 1)
            == date::day_number(y, 2, 29) + 1,
        date::day_number(y + 1, 1, 1) == date::day_number(y, 12, 31) + 1,
{
    reveal_with_fuel(date::days_before_month, 13);
    lemma_year(y);
}

proof fn lemma_year(y: int)
    ensures
        date::days_before_year(y + 1) == date::days_before_year(y) + 365 + if date::is_leap(y) {
            1int
        } else {
            0
        },
{
}

/// All times in one minute have the same text.
pub proof fn law_text_of_a_time(t: int, u: int)
    requires
        0 <= t,
        t / 60 == u / 60,
    ensures
        date::formatted(t) == date::formatted(u),
{
    assert(t / 86_400 == u / 86_400);
    assert(t % 86_400 / 3600 == u % 86_400 / 3600);
    assert(t % 86_400 / 60 % 60 == u % 86_400 / 60 % 60);
}

} // verus!
