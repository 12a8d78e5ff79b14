//! The texts that the pages show for numbers, days and events.

use vstd::prelude::*;

verus! {

/// The character of the digit `d`, for `d` from 0 to 9.
pub open spec fn digit(d: int) -> char {
    if d == 0 {
        '0'
    } else if d == 1 {
        '1'
    } else if d == 2 {
        '2'
    } else if d == 3 {
        '3'
    } else if d == 4 {
        '4'
    } else if d == 5 {
        '5'
    } else if d == 6 {
        '6'
    } else if d == 7 {
        '7'
    } else if d == 8 {
        '8'
    } else {
        '9'
    }
}

/// The decimal digits of `number`, without leading zeros.
pub open spec fn digits(number: nat) -> Seq<char>
    decreases number,
{
    if number < 10 {
        seq![digit(number as int)]
    } else {
        digits(number / 10).push(digit((number % 10) as int))
    }
}

/// `number` in decimal notation, with a minus sign before a negative number.
pub open spec fn decimal(number: int) -> Seq<char> {
    if number < 0 {
        seq!['-'] + digits((-number) as nat)
    } else {
        digits(number as nat)
    }
}

/// The text of "N day(s) ago" for `days` days: only one day is in the
/// singular.
pub open spec fn days_since_text(days: int) -> Seq<char> {
    decimal(days) + " day"@ + (if days != 1 {
        "s"@
    } else {
        Seq::empty()
    }) + " ago"@
}

/// The text of "N day(s)" for an average of `average` days, and of the
/// placeholder for an average of 0, which stands for no average. More than
/// one day is in the plural.
pub open spec fn average_text(average: int) -> Seq<char> {
    if average == 0 {
        "---"@
    } else {
        decimal(average) + " day"@ + (if average > 1 {
            "s"@
        } else {
            Seq::empty()
        })
    }
}

/// The short English name of the day of the week that is `weekday` days
/// after a Sunday.
pub open spec fn weekday_text(weekday: int) -> Seq<char> {
    if weekday == 0 {
        "Sun"@
    } else if weekday == 1 {
        "Mon"@
    } else if weekday == 2 {
        "Tue"@
    } else if weekday == 3 {
        "Wed"@
    } else if weekday == 4 {
        "Thu"@
    } else if weekday == 5 {
        "Fri"@
    } else {
        "Sat"@
    }
}

/// Each of `events` on a line of its own, every line begun by a line break.
pub open spec fn lines_of(events: Seq<String>) -> Seq<char>
    decreases events.len(),
{
    if events.len() == 0 {
        Seq::empty()
    } else {
        lines_of(events.drop_last()) + "\n"@ + events.last()@
    }
}

/// The text of a cell of the calendar: for the day `day` of the month, which
/// is `weekday` days after a Sunday, the day and the name of the weekday,
/// and for an empty cell, whose `day` is 0, a blank; then the events of the
/// day, each on a line of its own.
pub open spec fn cell_text(day: int, weekday: int, events: Seq<String>) -> Seq<char> {
    (if day == 0 {
        " "@
    } else {
        decimal(day) + "    "@ + weekday_text(weekday)
    }) + lines_of(events)
}

/// The text of one digit.
fn digit_text(d: u32) -> (text: &'static str)
    requires
        d < 10,
    ensures
        text@ == seq![digit(d as int)],
{
    proof {
        reveal_strlit("0");
        reveal_strlit("1");
        reveal_strlit("2");
        reveal_strlit("3");
        reveal_strlit("4");
        reveal_strlit("5");
        reveal_strlit("6");
        reveal_strlit("7");
        reveal_strlit("8");
        reveal_strlit("9");
    }
    let text = if d == 0 {
        "0"
    } else if d == 1 {
        "1"
    } else if d == 2 {
        "2"
    } else if d == 3 {
        "3"
    } else if d == 4 {
        "4"
    } else if d == 5 {
        "5"
    } else if d == 6 {
        "6"
    } else if d == 7 {
        "7"
    } else if d == 8 {
        "8"
    } else {
        "9"
    };
    assert(text@ =~= seq![digit(d as int)]);
    text
}

/// The decimal digits of `number`.
pub fn natural_text(number: u32) -> (text: String)
    ensures
        text@ == digits(number as nat),
{
    let mut rest: u32 = number / 10;
    let mut text = String::from_str(digit_text(number % 10));
    while rest > 0
        invariant
            digits(number as nat) == (if rest == 0 {
                Seq::<char>::empty()
            } else {
                digits(rest as nat)
            }) + text@,
        decreases rest,
    {
        let mut longer = String::from_str(digit_text(rest % 10));
        longer.append(text.as_str());
        proof {
            let head = if rest / 10 == 0 {
                Seq::<char>::empty()
            } else {
                digits((rest / 10) as nat)
            };
            assert(digits(rest as nat) =~= head + seq![digit((rest % 10) as int)]);
            assert(digits(number as nat) =~= head + longer@);
        }
        text = longer;
        rest = rest / 10;
    }
    assert(text@ =~= digits(number as nat));
    text
}

/// `number` in decimal notation.
pub fn decimal_text(number: i32) -> (text: String)
    ensures
        text@ == decimal(number as int),
{
    if number < 0 {
        let mut text = String::from_str("-");
        text.append(natural_text((-(number as i64)) as u32).as_str());
        proof {
            reveal_strlit("-");
            assert(text@ =~= decimal(number as int));
        }
        text
    } else {
        natural_text(number as u32)
    }
}

/// The text that says how long ago an event last occurred.
pub fn days_since_label(days_since: i32) -> (label: String)
    ensures
        label@ == days_since_text(days_since as int),
{
    let mut label = decimal_text(days_since);
    label.append(" day");
    if days_since != 1 {
        label.append("s");
    }
    label.append(" ago");
    proof {
        assert(label@ =~= days_since_text(days_since as int));
    }
    label
}

/// The text that says how many days lie between the occurrences of an event
/// on average, where 0 stands for no average.
pub fn average_label(average: i32) -> (label: String)
    ensures
        label@ == average_text(average as int),
{
    if average != 0 {
        let mut label = decimal_text(average);
        label.append(" day");
        if average > 1 {
            label.append("s");
        }
        proof {
            assert(label@ =~= average_text(average as int));
        }
        label
    } else {
        String::from_str("---")
    }
}

/// The short English name of the day of the week that is `weekday` days
/// after a Sunday.
pub fn weekday_name(weekday: u32) -> (name: &'static str)
    ensures
        name@ == weekday_text(weekday as int),
{
    if weekday == 0 {
        "Sun"
    } else if weekday == 1 {
        "Mon"
    } else if weekday == 2 {
        "Tue"
    } else if weekday == 3 {
        "Wed"
    } else if weekday == 4 {
        "Thu"
    } else if weekday == 5 {
        "Fri"
    } else {
        "Sat"
    }
}

/// The text of a cell of the calendar that shows the day `day` of the month,
/// or is empty if `day` is 0, with the events of that day.
pub fn cell_label(day: u32, weekday: u32, events: &Vec<String>) -> (label: String)
    ensures
        label@ == cell_text(day as int, weekday as int, events@),
{
    let mut label = if day == 0 {
        String::from_str(" ")
    } else {
        let mut label = natural_text(day);
        label.append("    ");
        label.append(weekday_name(weekday));
        label
    };
    let ghost start = label@;
    let mut i: usize = 0;
    while i < events.len()
        invariant
            i <= events@.len(),
            label@ == start + lines_of(events@.take(i as int)),
        decreases events@.len() - i,
    {
        proof {
            assert(events@.take(i + 1).drop_last() =~= events@.take(i as int));
        }
        label.append("\n");
        label.append(events[i].as_str());
        proof {
            assert(label@ =~= start + lines_of(events@.take(i + 1)));
        }
        i += 1;
    }
    proof {
        assert(events@.take(i as int) =~= events@);
    }
    label
}

} // verus!
