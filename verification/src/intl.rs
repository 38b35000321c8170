//! Numbers, days, lists and spans of time as texts. Everything is written as in American English.
use crate::calendar;
use crate::number;
use crate::registry;
use crate::registry::{Registry, RegistryView};
use crate::sort;
use crate::text;
use crate::text::CharClass;
use vstd::prelude::*;
use vstd::string::*;
use vstd::utf8::*;

verus! {

broadcast use crate::registry::group_registry;

/// How numbers are written.
pub struct NumberFormatOpts {
    pub style: String,
    pub currency: Option<String>,
    pub minimum_fraction_digits: Option<u32>,
    pub maximum_fraction_digits: Option<u32>,
    pub use_grouping: bool,
}

/// How numbers are written, over plain values.
#[verifier::ext_equal]
pub ghost struct NumberOptsView {
    pub style: Seq<char>,
    pub currency: Option<Seq<char>>,
    pub minimum_fraction_digits: Option<u32>,
    pub maximum_fraction_digits: Option<u32>,
    pub use_grouping: bool,
}

impl View for NumberFormatOpts {
    type V = NumberOptsView;

    open spec fn view(&self) -> NumberOptsView {
        NumberOptsView {
            style: self.style@,
            currency: text::opt_text(self.currency),
            minimum_fraction_digits: self.minimum_fraction_digits,
            maximum_fraction_digits: self.maximum_fraction_digits,
            use_grouping: self.use_grouping,
        }
    }
}

/// The options that a page gives. Each may be missing.
pub struct NumberChoice {
    pub style: Option<String>,
    pub currency: Option<String>,
    pub minimum_fraction_digits: Option<u32>,
    pub maximum_fraction_digits: Option<u32>,
    pub use_grouping: Option<bool>,
}

/// A currency, which an empty text does not name.
pub open spec fn named_currency(c: Option<Seq<char>>) -> Option<Seq<char>> {
    match c {
        Some(s) => if s.len() == 0 {
            None
        } else {
            Some(s)
        },
        None => None,
    }
}

impl NumberFormatOpts {
    /// How numbers are written where nothing is known of it.
    pub fn unknown() -> (r: NumberFormatOpts)
        ensures
            r@ == (NumberOptsView {
                style: ""@,
                currency: None,
                minimum_fraction_digits: None,
                maximum_fraction_digits: None,
                use_grouping: false,
            }),
    {
        NumberFormatOpts {
            style: text::copy(""),
            currency: None,
            minimum_fraction_digits: None,
            maximum_fraction_digits: None,
            use_grouping: false,
        }
    }

    /// How numbers are written by the options of a page: as plain decimals in groups of three
    /// digits, but for what it chooses.
    pub fn chosen(c: NumberChoice) -> (r: NumberFormatOpts)
        ensures
            r@ == (NumberOptsView {
                style: match c.style {
                    Some(s) => s@,
                    None => "decimal"@,
                },
                currency: named_currency(text::opt_text(c.currency)),
                minimum_fraction_digits: c.minimum_fraction_digits,
                maximum_fraction_digits: c.maximum_fraction_digits,
                use_grouping: match c.use_grouping {
                    Some(b) => b,
                    None => true,
                },
            }),
    {
        let style = match c.style {
            Some(s) => s,
            None => text::copy("decimal"),
        };
        let currency = match c.currency {
            Some(s) => if s.as_str().is_empty() {
                None
            } else {
                Some(s)
            },
            None => None,
        };
        let use_grouping = match c.use_grouping {
            Some(b) => b,
            None => true,
        };
        NumberFormatOpts {
            style,
            currency,
            minimum_fraction_digits: c.minimum_fraction_digits,
            maximum_fraction_digits: c.maximum_fraction_digits,
            use_grouping,
        }
    }
}

/// How many digits stand behind the point: as many as may at most, or must at least where that is
/// more; two for money and three for anything else where nothing is said.
pub open spec fn fraction_count(o: NumberOptsView) -> u32 {
    match (o.minimum_fraction_digits, o.maximum_fraction_digits) {
        (Some(min), Some(max)) => if max < min {
            min
        } else {
            max
        },
        (Some(min), None) => min,
        (None, Some(max)) => max,
        (None, None) => if o.style == "currency"@ {
            2
        } else {
            3
        },
    }
}

/// How many digits stand behind the point.
pub fn fraction_digits(o: &NumberFormatOpts) -> (r: u32)
    ensures
        r == fraction_count(o@),
{
    match (o.minimum_fraction_digits, o.maximum_fraction_digits) {
        (Some(min), Some(max)) => if max < min {
            min
        } else {
            max
        },
        (Some(min), None) => min,
        (None, Some(max)) => max,
        (None, None) => if text::same(&o.style, "currency") {
            2
        } else {
            3
        },
    }
}

/// Whether a number is written as hundredths.
pub fn is_percent(o: &NumberFormatOpts) -> (r: bool)
    ensures
        r == (o@.style == "percent"@),
{
    text::same(&o.style, "percent")
}

/// Digits in groups of three from the back, with commas between the groups.
pub open spec fn grouped(d: Seq<char>) -> Seq<char>
    decreases d.len(),
{
    if d.len() <= 3 {
        d
    } else {
        grouped(d.take(d.len() - 3)).push(',') + d.skip(d.len() - 3)
    }
}

/// A written number with the digits before its point in groups.
pub open spec fn with_groups(s: Seq<char>) -> Seq<char> {
    let at = text::first_at(s, '.');
    let whole = s.take(at);
    let rest = s.skip(at);
    if whole.len() > 0 && whole[0] == '-' {
        seq!['-'] + grouped(whole.skip(1)) + rest
    } else {
        grouped(whole) + rest
    }
}

fn push_groups(out: &mut Vec<char>, d: &[char])
    ensures
        final(out)@ == old(out)@ + grouped(d@),
{
    let ghost before = out@;
    let n: usize = d.len();
    let mut i: usize = 0;
    proof {
        assert(d@.take(0) =~= Seq::empty());
        assert(before + grouped(d@.take(0)) =~= before);
    }
    let lead: usize = if n % 3 == 0 && n > 0 {
        3
    } else {
        n % 3
    };
    while i < lead
        invariant
            i <= lead <= n,
            lead <= 3,
            n == d@.len(),
            out@ == before + d@.take(i as int),
        decreases lead - i,
    {
        out.push(d[i]);
        proof {
            assert(before + d@.take(i + 1) =~= (before + d@.take(i as int)).push(d@[i as int]));
        }
        i = i + 1;
    }
    while i < n
        invariant
            i <= n,
            (n - i) % 3 == 0,
            n == d@.len(),
            n > 0 ==> i > 0,
            out@ == before + grouped(d@.take(i as int)),
        decreases n - i,
    {
        let ghost prev = out@;
        out.push(',');
        out.push(d[i]);
        out.push(d[i + 1]);
        out.push(d[i + 2]);
        proof {
            let t = d@.take(i + 3);
            assert(t.take(t.len() - 3) =~= d@.take(i as int));
            assert(t.skip(t.len() - 3) =~= seq![d@[i as int], d@[i + 1], d@[i + 2]]);
            assert(out@ =~= before + grouped(t));
        }
        i = i + 3;
    }
    proof {
        assert(d@.take(n as int) =~= d@);
    }
}

/// Puts the digits before the point of a written number in groups.
pub fn group_thousands(s: &str) -> (r: String)
    requires
        text::is_ascii_text(s@),
    ensures
        r@ == with_groups(s@),
{
    let cs = text::to_chars(s);
    let at: usize = text::find_char(&cs, '.');
    let whole = text::copy_range(&cs, 0, at);
    let rest = text::copy_range(&cs, at, cs.len());
    proof {
        assert(whole@ =~= cs@.take(at as int));
        assert(rest@ =~= cs@.skip(at as int));
    }
    let mut out: Vec<char> = Vec::new();
    if whole.len() > 0 && whole[0] == '-' {
        let digits = text::copy_range(&whole, 1, whole.len());
        proof {
            assert(digits@ =~= whole@.skip(1));
        }
        out.push('-');
        push_groups(&mut out, &digits);
        text::push_chars(&mut out, &rest);
        proof {
            assert(out@ =~= with_groups(s@));
        }
    } else {
        push_groups(&mut out, &whole);
        text::push_chars(&mut out, &rest);
        proof {
            assert(out@ =~= with_groups(s@));
        }
    }
    text::to_text(&out)
}

/// Whether a character is not a comma.
pub open spec fn no_comma() -> spec_fn(char) -> bool {
    |c: char| c != ','
}

/// Without its commas a text in groups is the text that was put in groups.
pub proof fn groups_keep_digits(d: Seq<char>)
    requires
        forall|i: int| 0 <= i < d.len() ==> #[trigger] d[i] != ',',
    ensures
        grouped(d).filter(no_comma()) == d,
    decreases d.len(),
{
    if d.len() <= 3 {
        lemma_all_kept(d);
    } else {
        let a = d.take(d.len() - 3);
        let b = d.skip(d.len() - 3);
        groups_keep_digits(a);
        lemma_all_kept(b);
        Seq::filter_distributes_over_add(grouped(a).push(','), b, no_comma());
        assert(grouped(a).push(',').filter(no_comma()) == grouped(a).filter(no_comma())) by {
            reveal(Seq::filter);
            assert(grouped(a).push(',').drop_last() =~= grouped(a));
        }
        assert(a + b =~= d);
    }
}

proof fn lemma_all_kept(d: Seq<char>)
    requires
        forall|i: int| 0 <= i < d.len() ==> #[trigger] d[i] != ',',
    ensures
        d.filter(no_comma()) == d,
    decreases d.len(),
{
    reveal(Seq::filter);
    if d.len() > 0 {
        assert(d.last() == d[d.len() - 1]);
        lemma_all_kept(d.drop_last());
        assert(d.drop_last().push(d.last()) =~= d);
    } else {
        assert(d.filter(no_comma()) =~= d);
    }
}

/// The sign of a currency; empty where it has none.
pub open spec fn currency_sign(code: Seq<char>) -> Seq<char> {
    let c = text::upper(code);
    if c == "USD"@ || c == "CAD"@ || c == "AUD"@ || c == "NZD"@ {
        "$"@
    } else if c == "EUR"@ {
        "€"@
    } else if c == "GBP"@ {
        "£"@
    } else if c == "JPY"@ || c == "CNY"@ {
        "¥"@
    } else if c == "INR"@ {
        "₹"@
    } else {
        ""@
    }
}

/// The sign of a currency; empty where it has none.
pub fn currency_glyph(code: &str) -> (r: String)
    ensures
        r@ == currency_sign(code@),
{
    let c = text::upper_text(code);
    if text::same(&c, "USD") || text::same(&c, "CAD") || text::same(&c, "AUD") || text::same(
        &c,
        "NZD",
    ) {
        text::copy("$")
    } else if text::same(&c, "EUR") {
        text::copy("€")
    } else if text::same(&c, "GBP") {
        text::copy("£")
    } else if text::same(&c, "JPY") || text::same(&c, "CNY") {
        text::copy("¥")
    } else if text::same(&c, "INR") {
        text::copy("₹")
    } else {
        text::copy("")
    }
}

/// A written number with what its style puts around it.
pub open spec fn dressed(s: Seq<char>, o: NumberOptsView) -> Seq<char> {
    let t = if o.use_grouping {
        with_groups(s)
    } else {
        s
    };
    if o.style == "currency"@ {
        let symbol = match o.currency {
            Some(c) => c,
            None => "$"@,
        };
        if currency_sign(symbol).len() == 0 {
            symbol + " "@ + t
        } else {
            currency_sign(symbol) + t
        }
    } else if o.style == "percent"@ {
        t + "%"@
    } else {
        t
    }
}

/// Puts around a written number what its style asks for. The number is written with the digits
/// that `fraction_digits` gives, and as hundredths where `is_percent` says so.
pub fn format_number(written: &str, o: &NumberFormatOpts) -> (r: String)
    requires
        text::is_ascii_text(written@),
    ensures
        r@ == dressed(written@, o@),
{
    let t = if o.use_grouping {
        group_thousands(written)
    } else {
        text::copy(written)
    };
    let mut out: Vec<char> = Vec::new();
    if text::same(&o.style, "currency") {
        let symbol = match &o.currency {
            Some(c) => text::copy(c),
            None => text::copy("$"),
        };
        let glyph = currency_glyph(&symbol);
        if glyph.as_str().is_empty() {
            text::push_text(&mut out, &symbol);
            text::push_text(&mut out, " ");
        } else {
            text::push_text(&mut out, &glyph);
        }
        text::push_text(&mut out, &t);
    } else {
        text::push_text(&mut out, &t);
        if text::same(&o.style, "percent") {
            text::push_text(&mut out, "%");
        }
    }
    proof {
        assert(out@ =~= dressed(written@, o@));
    }
    text::to_text(&out)
}

/// Which parts of a day are written, and how.
pub struct DateTimeFormatOpts {
    pub year: Option<String>,
    pub month: Option<String>,
    pub day: Option<String>,
    pub hour: Option<String>,
    pub minute: Option<String>,
    pub second: Option<String>,
    pub weekday: Option<String>,
}

/// Which parts of a day are written, over plain values.
#[verifier::ext_equal]
pub ghost struct DateOptsView {
    pub year: Option<Seq<char>>,
    pub month: Option<Seq<char>>,
    pub day: Option<Seq<char>>,
    pub hour: Option<Seq<char>>,
    pub minute: Option<Seq<char>>,
    pub second: Option<Seq<char>>,
    pub weekday: Option<Seq<char>>,
}

impl View for DateTimeFormatOpts {
    type V = DateOptsView;

    open spec fn view(&self) -> DateOptsView {
        DateOptsView {
            year: text::opt_text(self.year),
            month: text::opt_text(self.month),
            day: text::opt_text(self.day),
            hour: text::opt_text(self.hour),
            minute: text::opt_text(self.minute),
            second: text::opt_text(self.second),
            weekday: text::opt_text(self.weekday),
        }
    }
}

impl DateTimeFormatOpts {
    /// No part is asked for.
    pub fn unknown() -> (r: DateTimeFormatOpts)
        ensures
            r@ == (DateOptsView {
                year: None,
                month: None,
                day: None,
                hour: None,
                minute: None,
                second: None,
                weekday: None,
            }),
    {
        DateTimeFormatOpts {
            year: None,
            month: None,
            day: None,
            hour: None,
            minute: None,
            second: None,
            weekday: None,
        }
    }
}

/// A moment of the calendar, to the second.
#[derive(Clone, Copy, PartialEq, Eq, Structural, Debug)]
pub struct Civil {
    pub year: i32,
    pub month: u32,
    pub day: u32,
    pub hour: u32,
    pub minute: u32,
    pub second: u32,
}

/// Whether this is the moment so many milliseconds after the start of 1970.
pub open spec fn is_moment(c: Civil, ms: int) -> bool {
    let seconds = (ms / 1000) % 86400;
    &&& calendar::is_date(c.year as int, c.month as int, c.day as int)
    &&& calendar::day_number(c.year as int, c.month as int, c.day as int) == (ms / 1000) / 86400
    &&& c.hour == seconds / 3600
    &&& c.minute == (seconds % 3600) / 60
    &&& c.second == seconds % 60
}

/// The moment so many milliseconds after the start of 1970.
pub open spec fn moment_of(ms: int) -> Civil {
    choose|c: Civil| is_moment(c, ms)
}

/// The moment so many milliseconds after the start of 1970.
pub fn ms_to_civil(ms: i64) -> (r: Civil)
    ensures
        is_moment(r, ms as int),
        r == moment_of(ms as int),
{
    let all: i64 = calendar::div_floor(ms, 1000);
    let days: i64 = calendar::div_floor(all, 86400);
    let seconds: i64 = all - days * 86400;
    let (y, m, d) = calendar::civil_of_days(days);
    let c = Civil {
        year: y as i32,
        month: m,
        day: d,
        hour: (seconds / 3600) as u32,
        minute: ((seconds % 3600) / 60) as u32,
        second: (seconds % 60) as u32,
    };
    proof {
        assert(is_moment(c, ms as int));
        moments_are_unique(c, moment_of(ms as int), ms as int);
    }
    c
}

/// A count of milliseconds is one moment only.
pub proof fn moments_are_unique(a: Civil, b: Civil, ms: int)
    requires
        is_moment(a, ms),
        is_moment(b, ms),
    ensures
        a == b,
{
    calendar::days_differ_in_number(
        a.year as int,
        a.month as int,
        a.day as int,
        b.year as int,
        b.month as int,
        b.day as int,
    );
}

/// The day of the week of a moment, counted from Sunday.
pub open spec fn weekday_at(ms: int) -> int {
    (ms / 86_400_000 + 4) % 7
}

/// The day of the week, of which Sunday is the first. The first day of 1970 was a Thursday.
pub fn weekday_of(ms: i64) -> (r: u32)
    ensures
        r == (ms as int / 86_400_000 + 4) % 7,
        r == weekday_at(ms as int),
{
    let days: i64 = calendar::div_floor(ms, 86_400_000);
    let weeks: i64 = calendar::div_floor(days + 4, 7);
    (days + 4 - weeks * 7) as u32
}

/// The name of a month.
pub open spec fn month_name(m: u32) -> Seq<char> {
    match m {
        1 => "January"@,
        2 => "February"@,
        3 => "March"@,
        4 => "April"@,
        5 => "May"@,
        6 => "June"@,
        7 => "July"@,
        8 => "August"@,
        9 => "September"@,
        10 => "October"@,
        11 => "November"@,
        12 => "December"@,
        _ => ""@,
    }
}

/// The short name of a month.
pub open spec fn month_short(m: u32) -> Seq<char> {
    match m {
        1 => "Jan"@,
        2 => "Feb"@,
        3 => "Mar"@,
        4 => "Apr"@,
        5 => "May"@,
        6 => "Jun"@,
        7 => "Jul"@,
        8 => "Aug"@,
        9 => "Sep"@,
        10 => "Oct"@,
        11 => "Nov"@,
        12 => "Dec"@,
        _ => ""@,
    }
}

/// The name of a day of the week.
pub open spec fn day_name(w: u32) -> Seq<char> {
    match w {
        0 => "Sunday"@,
        1 => "Monday"@,
        2 => "Tuesday"@,
        3 => "Wednesday"@,
        4 => "Thursday"@,
        5 => "Friday"@,
        6 => "Saturday"@,
        _ => ""@,
    }
}

/// The name of a month.
pub fn long_month(m: u32) -> (r: String)
    ensures
        r@ == month_name(m),
{
    text::copy(
        match m {
            1 => "January",
            2 => "February",
            3 => "March",
            4 => "April",
            5 => "May",
            6 => "June",
            7 => "July",
            8 => "August",
            9 => "September",
            10 => "October",
            11 => "November",
            12 => "December",
            _ => "",
        },
    )
}

/// The short name of a month.
pub fn short_month(m: u32) -> (r: String)
    ensures
        r@ == month_short(m),
{
    text::copy(
        match m {
            1 => "Jan",
            2 => "Feb",
            3 => "Mar",
            4 => "Apr",
            5 => "May",
            6 => "Jun",
            7 => "Jul",
            8 => "Aug",
            9 => "Sep",
            10 => "Oct",
            11 => "Nov",
            12 => "Dec",
            _ => "",
        },
    )
}

/// The name of a day of the week.
pub fn weekday_name(w: u32) -> (r: String)
    ensures
        r@ == day_name(w),
{
    text::copy(
        match w {
            0 => "Sunday",
            1 => "Monday",
            2 => "Tuesday",
            3 => "Wednesday",
            4 => "Thursday",
            5 => "Friday",
            6 => "Saturday",
            _ => "",
        },
    )
}

/// So many zeros.
pub open spec fn zeros(n: int) -> Seq<char> {
    Seq::new(
        if n > 0 {
            n as nat
        } else {
            0
        },
        |i: int| '0',
    )
}

/// A number that takes up a width, filled with zeros behind its sign.
pub open spec fn padded(n: int, width: int) -> Seq<char> {
    if n < 0 {
        let d = number::decimal((-n) as nat);
        seq!['-'] + zeros(width - 1 - d.len()) + d
    } else {
        let d = number::decimal(n as nat);
        zeros(width - d.len()) + d
    }
}

fn push_padded(out: &mut Vec<char>, n: i64, width: usize)
    requires
        n > i64::MIN,
        1 <= width,
    ensures
        final(out)@ == old(out)@ + padded(n as int, width as int),
{
    let ghost start = out@;
    let mut left: usize = width;
    let d = if n < 0 {
        out.push('-');
        left = left - 1;
        number::write_decimal((-n) as u128)
    } else {
        number::write_decimal(n as u128)
    };
    let ghost signed = out@;
    let mut i: usize = d.len();
    proof {
        assert(signed + zeros(0) =~= signed);
    }
    while i < left
        invariant
            d@.len() <= i,
            i <= left || i == d@.len(),
            out@ == signed + zeros(i - d@.len()),
        decreases left - i,
    {
        out.push('0');
        proof {
            assert(signed + zeros(i + 1 - d@.len()) =~= (signed + zeros(i - d@.len())).push('0'));
        }
        i = i + 1;
    }
    proof {
        assert(zeros(i - d@.len()) =~= zeros(left - d@.len()));
    }
    text::push_chars(out, &d);
    proof {
        assert(out@ =~= start + padded(n as int, width as int));
    }
}

/// The last two digits of a year, with its sign.
pub open spec fn short_year(y: int) -> int {
    if y < 0 {
        -((-y) % 100)
    } else {
        y % 100
    }
}

/// A year as it is written.
pub open spec fn year_text(o: Option<Seq<char>>, y: int) -> Seq<char> {
    if o == Some("2-digit"@) {
        padded(short_year(y), 2)
    } else {
        padded(y, 4)
    }
}

/// A month as it is written.
pub open spec fn month_text(o: Option<Seq<char>>, m: u32) -> Seq<char> {
    if o == Some("long"@) {
        month_name(m)
    } else if o == Some("short"@) {
        month_short(m)
    } else if o == Some("numeric"@) {
        number::decimal(m as nat)
    } else {
        padded(m as int, 2)
    }
}

/// A day of a month as it is written.
pub open spec fn day_text(o: Option<Seq<char>>, d: u32) -> Seq<char> {
    if o == Some("numeric"@) {
        number::decimal(d as nat)
    } else {
        padded(d as int, 2)
    }
}

/// The day as it is written.
pub open spec fn date_text(o: DateOptsView, c: Civil) -> Seq<char> {
    if o.year is Some || o.month is Some || o.day is Some {
        month_text(o.month, c.month) + " "@ + day_text(o.day, c.day) + ", "@ + year_text(
            o.year,
            c.year as int,
        )
    } else {
        padded(c.month as int, 2) + "/"@ + padded(c.day as int, 2) + "/"@ + padded(
            c.year as int,
            4,
        )
    }
}

/// The time of the day as it is written.
pub open spec fn time_text(o: DateOptsView, c: Civil) -> Seq<char> {
    let t = padded(c.hour as int, 2) + ":"@ + padded(c.minute as int, 2);
    if o.second is Some {
        t + ":"@ + padded(c.second as int, 2)
    } else {
        t
    }
}

/// The parts of a moment that are written: the day of the week, the day, the time.
pub open spec fn moment_parts(o: DateOptsView, c: Civil, weekday: u32) -> Seq<Seq<char>> {
    let first: Seq<Seq<char>> = if o.weekday is Some {
        seq![day_name(weekday)]
    } else {
        seq![]
    };
    let second = first.push(date_text(o, c));
    if o.hour is Some || o.minute is Some || o.second is Some {
        second.push(time_text(o, c))
    } else {
        second
    }
}

fn is_word(o: &Option<String>, w: &str) -> (r: bool)
    ensures
        r == (text::opt_text(*o) == Some(w@)),
{
    match o {
        Some(s) => text::same(s, w),
        None => false,
    }
}

fn write_date(o: &DateTimeFormatOpts, c: &Civil) -> (r: Vec<char>)
    ensures
        r@ == date_text(o@, *c),
{
    let mut out: Vec<char> = Vec::new();
    if o.year.is_some() || o.month.is_some() || o.day.is_some() {
        if is_word(&o.month, "long") {
            let name = long_month(c.month);
            text::push_text(&mut out, &name);
        } else if is_word(&o.month, "short") {
            let name = short_month(c.month);
            text::push_text(&mut out, &name);
        } else if is_word(&o.month, "numeric") {
            let digits = number::write_decimal(c.month as u128);
            text::push_chars(&mut out, &digits);
        } else {
            push_padded(&mut out, c.month as i64, 2);
        }
        let ghost month = month_text(o@.month, c.month);
        proof {
            assert(out@ =~= month);
        }
        text::push_text(&mut out, " ");
        if is_word(&o.day, "numeric") {
            let digits = number::write_decimal(c.day as u128);
            text::push_chars(&mut out, &digits);
        } else {
            push_padded(&mut out, c.day as i64, 2);
        }
        text::push_text(&mut out, ", ");
        if is_word(&o.year, "2-digit") {
            let y: i64 = c.year as i64;
            let last: i64 = if y < 0 {
                -((-y) % 100)
            } else {
                y % 100
            };
            push_padded(&mut out, last, 2);
        } else {
            push_padded(&mut out, c.year as i64, 4);
        }
    } else {
        push_padded(&mut out, c.month as i64, 2);
        text::push_text(&mut out, "/");
        push_padded(&mut out, c.day as i64, 2);
        text::push_text(&mut out, "/");
        push_padded(&mut out, c.year as i64, 4);
    }
    proof {
        assert(out@ =~= date_text(o@, *c));
    }
    out
}

fn write_time(o: &DateTimeFormatOpts, c: &Civil) -> (r: Vec<char>)
    ensures
        r@ == time_text(o@, *c),
{
    let mut out: Vec<char> = Vec::new();
    push_padded(&mut out, c.hour as i64, 2);
    text::push_text(&mut out, ":");
    push_padded(&mut out, c.minute as i64, 2);
    if o.second.is_some() {
        text::push_text(&mut out, ":");
        push_padded(&mut out, c.second as i64, 2);
    }
    proof {
        assert(out@ =~= time_text(o@, *c));
    }
    out
}

/// Writes the moment so many milliseconds after the start of 1970.
pub fn format_date(ms: i64, o: &DateTimeFormatOpts) -> (r: String)
    ensures
        r@ == text::joined(
            moment_parts(o@, moment_of(ms as int), ((ms as int / 86_400_000 + 4) % 7) as u32),
            ", "@,
        ),
{
    let c = ms_to_civil(ms);
    let w = weekday_of(ms);
    let mut parts: Vec<Vec<char>> = Vec::new();
    proof {
        assert(text::pieces_view(parts@) =~= seq![]);
    }
    if o.weekday.is_some() {
        let name = weekday_name(w);
        parts.push(text::to_chars(&name));
        proof {
            assert(text::pieces_view(parts@) =~= seq![day_name(w)]);
        }
    }
    let ghost first = text::pieces_view(parts@);
    parts.push(write_date(o, &c));
    proof {
        assert(text::pieces_view(parts@) =~= first.push(date_text(o@, c)));
    }
    let ghost second = text::pieces_view(parts@);
    if o.hour.is_some() || o.minute.is_some() || o.second.is_some() {
        parts.push(write_time(o, &c));
        proof {
            assert(text::pieces_view(parts@) =~= second.push(time_text(o@, c)));
        }
    }
    proof {
        assert(text::pieces_view(parts@) == moment_parts(o@, c, w));
    }
    let out = text::join(&parts, ", ");
    text::to_text(&out)
}

/// The order of two texts as a number: below zero, zero or above zero.
pub open spec fn order_of(a: Seq<char>, b: Seq<char>) -> int {
    if a == b {
        0
    } else if sort::before(a, b) {
        -1
    } else {
        1
    }
}

/// Compares two texts; a text that is missing is the same as any.
pub fn collate(a: &Option<String>, b: &Option<String>) -> (r: i32)
    ensures
        r == match (text::opt_text(*a), text::opt_text(*b)) {
            (Some(x), Some(y)) => order_of(x, y),
            _ => 0,
        },
{
    match (a, b) {
        (Some(x), Some(y)) => {
            if text::same(x, y) {
                0
            } else if sort::comes_before(x, y) {
                -1
            } else {
                1
            }
        },
        _ => 0,
    }
}

/// Comparing two texts the other way round gives the opposite.
pub proof fn order_is_opposite(a: Seq<char>, b: Seq<char>)
    ensures
        order_of(b, a) == -order_of(a, b),
{
    sort::lemma_one_is_before(a, b);
    if sort::before(a, b) && sort::before(b, a) {
        sort::lemma_before_same(a, b);
    }
}

/// A list as a text: its items with commas between them, and the last one behind an `and`.
pub open spec fn list_text(v: Seq<Seq<char>>) -> Seq<char> {
    if v.len() == 0 {
        Seq::empty()
    } else if v.len() == 1 {
        v[0]
    } else if v.len() == 2 {
        v[0] + " and "@ + v[1]
    } else {
        text::joined(v.drop_last(), ", "@) + ", and "@ + v.last()
    }
}

/// Writes a list.
pub fn list_format(items: &Vec<Vec<char>>) -> (r: String)
    ensures
        r@ == list_text(text::pieces_view(items@)),
{
    let ghost all = text::pieces_view(items@);
    let n: usize = items.len();
    let mut out: Vec<char> = Vec::new();
    if n == 0 {
        return text::to_text(&out);
    }
    proof {
        assert(all.last() == items@[n - 1]@);
        assert(all[0] == items@[0]@);
    }
    if n == 2 {
        text::push_chars(&mut out, &items[0]);
        text::push_text(&mut out, " and ");
        text::push_chars(&mut out, &items[1]);
        proof {
            assert(out@ =~= list_text(all));
        }
    } else if n == 1 {
        text::push_chars(&mut out, &items[0]);
        proof {
            assert(out@ =~= list_text(all));
        }
    } else {
        let mut i: usize = 0;
        while i < n - 1
            invariant
                n == items@.len(),
                n >= 3,
                i <= n - 1,
                all == text::pieces_view(items@),
                out@ == text::joined(all.take(i as int), ", "@),
            decreases n - i,
        {
            proof {
                assert(all.take(i + 1).drop_last() =~= all.take(i as int));
                assert(all.take(i + 1).last() == items@[i as int]@);
            }
            if i > 0 {
                text::push_text(&mut out, ", ");
            }
            text::push_chars(&mut out, &items[i]);
            proof {
                if i == 0 {
                    assert(out@ =~= all.take(1)[0]);
                }
            }
            i = i + 1;
        }
        proof {
            assert(all.drop_last() =~= all.take(n - 1));
        }
        text::push_text(&mut out, ", and ");
        text::push_chars(&mut out, &items[n - 1]);
        proof {
            assert(out@ =~= list_text(all));
        }
    }
    text::to_text(&out)
}

/// So many of a unit.
pub open spec fn counted(n: int, unit: Seq<char>) -> Seq<char> {
    number::decimal(n as nat) + " "@ + text::chop_class(unit, CharClass::Is('s')) + (if n == 1 {
        ""@
    } else {
        "s"@
    })
}

/// A span of time from now as a text.
pub open spec fn span_text(n: int, unit: Seq<char>) -> Seq<char> {
    if n == 0 {
        "now"@
    } else if n < 0 {
        counted(-n, unit) + " ago"@
    } else {
        "in "@ + counted(n, unit)
    }
}

fn push_counted(out: &mut Vec<char>, n: u64, unit: &str)
    ensures
        final(out)@ == old(out)@ + counted(n as int, unit@),
{
    let ghost start = out@;
    let digits = number::write_decimal(n as u128);
    text::push_chars(out, &digits);
    text::push_text(out, " ");
    let cs = text::to_chars(unit);
    let one = text::chop_back(&cs, CharClass::Is('s'));
    text::push_chars(out, &one);
    if n != 1 {
        text::push_text(out, "s");
    } else {
        text::push_text(out, "");
    }
    proof {
        assert(out@ =~= start + counted(n as int, unit@));
    }
}

/// Writes a span of time from now, in seconds where no unit is given.
pub fn rtf_format(n: i64, unit: &Option<String>) -> (r: String)
    ensures
        r@ == span_text(
            n as int,
            match unit {
                Some(u) => u@,
                None => "second"@,
            },
        ),
{
    if n == 0 {
        return text::copy("now");
    }
    let u = match unit {
        Some(u) => text::copy(u),
        None => text::copy("second"),
    };
    let mut out: Vec<char> = Vec::new();
    if n < 0 {
        let m: u64 = (-(n as i128)) as u64;
        push_counted(&mut out, m, &u);
        text::push_text(&mut out, " ago");
    } else {
        text::push_text(&mut out, "in ");
        push_counted(&mut out, n as u64, &u);
    }
    proof {
        assert(out@ =~= span_text(n as int, u@));
    }
    text::to_text(&out)
}

/// Whether a part of a tag names a region: two letters.
pub open spec fn is_region(p: Seq<char>) -> bool {
    p.len() == 2 && is_letter(p[0]) && is_letter(p[1])
}

/// Whether a character is a letter of ASCII.
pub open spec fn is_letter(c: char) -> bool {
    'a' <= c <= 'z' || 'A' <= c <= 'Z'
}

/// The first region among the parts of a tag; empty where there is none.
pub open spec fn region_of(parts: Seq<Seq<char>>) -> Seq<char>
    decreases parts.len(),
{
    if parts.len() == 0 {
        ""@
    } else if is_region(parts[0]) {
        parts[0]
    } else {
        region_of(parts.skip(1))
    }
}

fn letter(c: char) -> (r: bool)
    ensures
        r == is_letter(c),
{
    ('a' <= c && c <= 'z') || ('A' <= c && c <= 'Z')
}

/// Takes the language and the region out of a tag.
pub fn split_tag(tag: &str) -> (r: (String, String))
    ensures
        r.0@ == text::pieces(tag@, CharClass::Is('-'))[0],
        r.1@ == region_of(text::pieces(tag@, CharClass::Is('-')).skip(1)),
{
    let cs = text::to_chars(tag);
    let parts = text::split(&cs, CharClass::Is('-'));
    let ghost all = text::pieces_view(parts@);
    let lang = text::to_text(&parts[0]);
    proof {
        assert(all[0] == parts@[0]@);
    }
    let mut i: usize = 1;
    while i < parts.len()
        invariant
            1 <= i <= parts@.len(),
            all == text::pieces_view(parts@),
            all == text::pieces(tag@, CharClass::Is('-')),
            lang@ == all[0],
            region_of(all.skip(1)) == region_of(all.skip(i as int)),
        decreases parts@.len() - i,
    {
        proof {
            assert(all.skip(i as int)[0] == parts@[i as int]@);
            assert(all.skip(i as int).skip(1) =~= all.skip(i + 1));
        }
        let p = &parts[i];
        if p.len() == 2 && letter(p[0]) && letter(p[1]) {
            return (lang, text::to_text(p));
        }
        i = i + 1;
    }
    proof {
        assert(all.skip(i as int) =~= Seq::empty());
    }
    (lang, text::copy(""))
}

/// The place of a word among words with one character between each two, in bytes.
pub open spec fn place_of(v: Seq<Seq<char>>, i: int) -> int
    decreases i,
{
    if i <= 0 {
        0
    } else {
        place_of(v, i - 1) + encode_utf8(v[i - 1]).len() + 1
    }
}

/// The words of a text with their places. A place is cut to 32 bits.
pub open spec fn segments_of(s: Seq<char>) -> Seq<(Seq<char>, u32)> {
    let v = text::words(s, CharClass::Space);
    Seq::new(v.len(), |i: int| (v[i], (place_of(v, i) % 0x1_0000_0000) as u32))
}

/// Words and their places over plain values.
pub open spec fn segments_view(v: Seq<(String, u32)>) -> Seq<(Seq<char>, u32)> {
    v.map_values(|e: (String, u32)| (e.0@, e.1))
}

/// Cuts a text into its words, each with its place.
pub fn segment(s: &str) -> (r: Vec<(String, u32)>)
    ensures
        segments_view(r@) == segments_of(s@),
{
    let cs = text::to_chars(s);
    let words = text::split_words(&cs, CharClass::Space);
    let ghost v = text::pieces_view(words@);
    let ghost goal = segments_of(s@);
    let mut out: Vec<(String, u32)> = Vec::new();
    let mut place: u64 = 0;
    let mut i: usize = 0;
    proof {
        assert(segments_view(out@) =~= goal.take(0));
    }
    while i < words.len()
        invariant
            i <= words@.len(),
            v == text::pieces_view(words@),
            v == text::words(s@, CharClass::Space),
            goal == segments_of(s@),
            place == place_of(v, i as int) % 0x1_0000_0000,
            segments_view(out@) == goal.take(i as int),
        decreases words@.len() - i,
    {
        let w = text::to_text(&words[i]);
        let n: usize = w.as_str().as_bytes().len();
        let ghost prev = out@;
        let ghost here = w@;
        proof {
            assert(v[i as int] == words@[i as int]@);
            assert(encode_utf8(v[i as int]).len() == n);
        }
        out.push((w, place as u32));
        proof {
            assert(segments_view(out@) =~= segments_view(prev).push((here, place as u32)));
            assert(goal.take(i + 1) =~= goal.take(i as int).push(goal[i as int]));
        }
        place = (place + n as u64 % 0x1_0000_0000 + 1) % 0x1_0000_0000;
        i = i + 1;
    }
    proof {
        assert(goal.take(goal.len() as int) =~= goal);
    }
    out
}

/// The formats that pages made.
pub struct Formats {
    numbers: Registry<NumberFormatOpts>,
    dates: Registry<DateTimeFormatOpts>,
    next: u32,
}

/// The formats that pages made, over plain values.
#[verifier::ext_equal]
pub ghost struct FormatsView {
    pub numbers: Map<u32, NumberOptsView>,
    pub dates: Map<u32, DateOptsView>,
    pub next: u32,
}

impl View for Formats {
    type V = FormatsView;

    closed spec fn view(&self) -> FormatsView {
        FormatsView {
            numbers: registry::views(self.numbers@).items,
            dates: registry::views(self.dates@).items,
            next: self.next,
        }
    }
}

impl Formats {
    /// Nothing yet; the first number is one.
    pub fn new() -> (r: Formats)
        ensures
            r@ == (FormatsView { numbers: Map::empty(), dates: Map::empty(), next: 1 }),
    {
        let r = Formats { numbers: Registry::new(), dates: Registry::new(), next: 1 };
        proof {
            assert(r@.numbers =~= Map::empty());
            assert(r@.dates =~= Map::empty());
        }
        r
    }

    /// Keeps a way to write numbers, and gives the number under which it is kept.
    pub fn intl_number_format_ctor(&mut self, o: NumberFormatOpts) -> (r: u32)
        ensures
            r == old(self)@.next,
            final(self)@ == (FormatsView {
                numbers: old(self)@.numbers.insert(old(self)@.next, o@),
                next: registry::next_after(old(self)@.next),
                ..old(self)@
            }),
    {
        let id = registry::next_id(&mut self.next);
        self.numbers.put(id, o);
        id
    }

    /// Keeps a way to write days, and gives the number under which it is kept.
    pub fn intl_datetime_format_ctor(&mut self, o: DateTimeFormatOpts) -> (r: u32)
        ensures
            r == old(self)@.next,
            final(self)@ == (FormatsView {
                dates: old(self)@.dates.insert(old(self)@.next, o@),
                next: registry::next_after(old(self)@.next),
                ..old(self)@
            }),
    {
        let id = registry::next_id(&mut self.next);
        self.dates.put(id, o);
        id
    }

    /// A way to write numbers.
    pub fn number_format(&self, id: u32) -> (r: Option<&NumberFormatOpts>)
        ensures
            match r {
                Some(o) => self@.numbers.dom().contains(id) && o@ == self@.numbers[id],
                None => !self@.numbers.dom().contains(id),
            },
    {
        self.numbers.get(id)
    }

    /// A way to write days.
    pub fn datetime_format(&self, id: u32) -> (r: Option<&DateTimeFormatOpts>)
        ensures
            match r {
                Some(o) => self@.dates.dom().contains(id) && o@ == self@.dates[id],
                None => !self@.dates.dom().contains(id),
            },
    {
        self.dates.get(id)
    }
}

/// There are at least as many digits behind the point as there must be, and just as many as there may
/// be where that is not less; money has two where nothing is said, anything else three.
pub proof fn fractions_have_their_digits(o: NumberOptsView, min: u32, max: u32)
    ensures
        fraction_count(
            NumberOptsView {
                minimum_fraction_digits: Some(min),
                maximum_fraction_digits: Some(max),
                ..o
            },
        ) == (if min <= max {
            max
        } else {
            min
        }),
        fraction_count(
            NumberOptsView {
                minimum_fraction_digits: Some(min),
                maximum_fraction_digits: None,
                ..o
            },
        ) == min,
        fraction_count(
            NumberOptsView {
                minimum_fraction_digits: None,
                maximum_fraction_digits: Some(max),
                ..o
            },
        ) == max,
        o.minimum_fraction_digits is None && o.maximum_fraction_digits is None ==> (fraction_count(
            o,
        ) == 2 <==> o.style == "currency"@) && (fraction_count(o) == 2 || fraction_count(o) == 3),
        named_currency(Some(Seq::empty())) is None,
{
}

/// A comma stands before each three digits, counted from the back, where there are more before them.
pub proof fn groups_have_three_digits(a: Seq<char>, b: Seq<char>, i: int)
    requires
        b.len() == 3,
    ensures
        a.len() > 0 ==> grouped(a + b) == grouped(a).push(',') + b,
        grouped(b) == b,
        a.len() <= 3 ==> grouped(a) == a,
        a.len() > 0 ==> grouped(a).len() == a.len() + (a.len() - 1) / 3,
    decreases a.len(),
{
    let d = a + b;
    assert(d.take(d.len() - 3) =~= a);
    assert(d.skip(d.len() - 3) =~= b);
    if a.len() > 3 {
        let x = a.take(a.len() - 3);
        let y = a.skip(a.len() - 3);
        groups_have_three_digits(x, y, i);
    }
}

/// Putting a number in groups leaves its sign and what stands behind its point as they are.
pub proof fn groups_stand_before_the_point(whole: Seq<char>, rest: Seq<char>)
    requires
        !whole.contains('.'),
        !whole.contains('-'),
    ensures
        with_groups(whole.push('.') + rest) == grouped(whole).push('.') + rest,
        with_groups(whole) == grouped(whole),
        with_groups(seq!['-'] + (whole.push('.') + rest)) == seq!['-'] + (grouped(whole).push('.')
            + rest),
{
    let n = whole.len() as int;
    let s = whole.push('.') + rest;
    let t = seq!['-'] + s;
    assert forall|j: int| 0 <= j < n implies whole[j] != '.' && whole[j] != '-' by {
        assert(whole.contains(whole[j]));
    }
    text::lemma_first_at(s, '.', n);
    text::lemma_first_at(whole, '.', n);
    assert forall|j: int| 0 <= j < n + 1 implies t[j] != '.' by {
        if j > 0 {
            assert(t[j] == whole[j - 1]);
        }
    }
    text::lemma_first_at(t, '.', n + 1);
    assert(s.take(n) =~= whole);
    assert(whole.take(n) =~= whole);
    assert(whole.skip(n) =~= Seq::<char>::empty());
    assert(t.take(n + 1).skip(1) =~= whole);
    assert(t.take(n + 1)[0] == '-');
    assert(s.skip(n) =~= seq!['.'] + rest);
    assert(t.skip(n + 1) =~= seq!['.'] + rest);
    assert(with_groups(s) =~= grouped(whole).push('.') + rest);
    assert(with_groups(whole) =~= grouped(whole));
    assert(with_groups(t) =~= seq!['-'] + (grouped(whole).push('.') + rest));
}

/// A number of money stands behind its sign, or behind its code where that has none; a share stands
/// before its own sign; any other number stands alone.
pub proof fn numbers_are_dressed(s: Seq<char>, o: NumberOptsView, code: Seq<char>)
    requires
        !o.use_grouping,
    ensures
        o.style == "currency"@ && o.currency == Some(code) && currency_sign(code).len() > 0
            ==> dressed(s, o) == currency_sign(code) + s,
        o.style == "currency"@ && o.currency == Some(code) && currency_sign(code).len() == 0
            ==> dressed(s, o) == code + " "@ + s,
        o.style == "percent"@ ==> dressed(s, o) == s.push('%'),
        o.style == "decimal"@ ==> dressed(s, o) == s,
        dressed(s, NumberOptsView { use_grouping: true, ..o }) == dressed(with_groups(s), o),
        currency_sign(text::lower(code)) == currency_sign(code),
        text::upper(code) == "USD"@ ==> currency_sign(code) == "$"@,
        text::upper(code) == "EUR"@ ==> currency_sign(code) == "€"@,
        text::upper(code) == "GBP"@ ==> currency_sign(code) == "£"@,
        text::upper(code) == "JPY"@ || text::upper(code) == "CNY"@ ==> currency_sign(code) == "¥"@,
        text::upper(code) == "INR"@ ==> currency_sign(code) == "₹"@,
{
    reveal_strlit("currency");
    reveal_strlit("percent");
    reveal_strlit("decimal");
    reveal_strlit("%");
    reveal_strlit("USD");
    reveal_strlit("CAD");
    reveal_strlit("AUD");
    reveal_strlit("NZD");
    reveal_strlit("EUR");
    reveal_strlit("GBP");
    reveal_strlit("JPY");
    reveal_strlit("CNY");
    reveal_strlit("INR");
    assert("currency"@.len() == 8 && "percent"@.len() == 7 && "decimal"@.len() == 7);
    assert("percent"@[0] == 'p' && "decimal"@[0] == 'd');
    assert(s + "%"@ =~= s.push('%'));
    assert("USD"@[0] == 'U' && "CAD"@[0] == 'C' && "AUD"@[0] == 'A' && "NZD"@[0] == 'N' && "EUR"@[0]
        == 'E' && "GBP"@[0] == 'G' && "JPY"@[0] == 'J' && "CNY"@[0] == 'C' && "INR"@[0] == 'I');
    assert("CAD"@[1] == 'A' && "CNY"@[1] == 'N');
    let l = text::lower(code);
    assert forall|i: int| 0 <= i < code.len() implies text::upper(l)[i] == text::upper(code)[i] by {
        text::letters_change_case(code[i], code, i);
        text::letters_change_case(l[i], l, i);
    }
    assert(text::upper(l) =~= text::upper(code));
}

/// A moment counts the days since 1970, and in the day the hours, minutes and seconds; one second later
/// is the next of each.
pub proof fn moments_count_seconds(c: Civil, ms: int)
    requires
        is_moment(c, ms),
    ensures
        c.hour < 24,
        c.minute < 60,
        c.second < 60,
        calendar::is_date(c.year as int, c.month as int, c.day as int),
        calendar::day_number(c.year as int, c.month as int, c.day as int) * 86400 + c.hour * 3600
            + c.minute * 60 + c.second == ms / 1000,
{
    let seconds = (ms / 1000) % 86400;
    assert(seconds == (seconds / 3600) * 3600 + seconds % 3600);
}

/// A day later is the next day of the week, a week later the same; the first day of 1970 was a
/// Thursday.
pub proof fn weekdays_follow(ms: int)
    ensures
        0 <= weekday_at(ms) < 7,
        weekday_at(ms + 86_400_000) == (weekday_at(ms) + 1) % 7,
        weekday_at(ms + 7 * 86_400_000) == weekday_at(ms),
        0 <= ms < 86_400_000 ==> day_name(weekday_at(ms) as u32) == "Thursday"@,
{
    assert((ms + 86_400_000) / 86_400_000 == ms / 86_400_000 + 1);
    assert((ms + 7 * 86_400_000) / 86_400_000 == ms / 86_400_000 + 7);
}

/// The short name of a month is how its name begins, and no two months have the same.
pub proof fn months_have_short_names(m: u32, n: u32)
    requires
        1 <= m <= 12,
        1 <= n <= 12,
    ensures
        month_short(m).len() == 3,
        text::begins(month_name(m), month_short(m)),
        month_short(m) == month_short(n) ==> m == n,
{
    reveal_strlit("January");
    reveal_strlit("February");
    reveal_strlit("March");
    reveal_strlit("April");
    reveal_strlit("May");
    reveal_strlit("June");
    reveal_strlit("July");
    reveal_strlit("August");
    reveal_strlit("September");
    reveal_strlit("October");
    reveal_strlit("November");
    reveal_strlit("December");
    reveal_strlit("Jan");
    reveal_strlit("Feb");
    reveal_strlit("Mar");
    reveal_strlit("Apr");
    reveal_strlit("Jun");
    reveal_strlit("Jul");
    reveal_strlit("Aug");
    reveal_strlit("Sep");
    reveal_strlit("Oct");
    reveal_strlit("Nov");
    reveal_strlit("Dec");
    assert(month_name(m).take(3) =~= month_short(m));
    let a = month_short(m);
    let b = month_short(n);
    assert(a == b ==> a[0] == b[0] && a[1] == b[1] && a[2] == b[2]);
}

proof fn lemma_zeros_before(n: int, d: Seq<char>)
    ensures
        number::digits_value(zeros(n) + d, 10) == number::digits_value(d, 10),
    decreases
            d.len(),
            if n > 0 {
                n
            } else {
                0
            },
{
    let s = zeros(n) + d;
    if d.len() > 0 {
        lemma_zeros_before(n, d.drop_last());
        assert(s.drop_last() =~= zeros(n) + d.drop_last());
        assert(s.last() == d.last());
    } else if n > 0 {
        lemma_zeros_before(n - 1, d);
        assert(s.drop_last() =~= zeros(n - 1) + d);
        assert(s.last() == '0');
        number::digits_have_their_values('0', 0, 10);
    } else {
        assert(s =~= d);
    }
}

proof fn lemma_first_digit(n: nat)
    ensures
        number::decimal(n).len() > 0,
        number::decimal(n)[0] != '+',
    decreases n,
{
    if n >= 10 {
        lemma_first_digit(n / 10);
    } else {
        number::digits_have_their_values('+', n, 10);
    }
}

/// A number that is filled up with zeros takes up at least the width, and just that where it fits; it
/// still writes the number, behind its sign where it is below zero.
pub proof fn filled_numbers_are_read(n: nat, width: int)
    ensures
        padded(n as int, width).len() >= width,
        number::decimal(n).len() <= width ==> padded(n as int, width).len() == width,
        number::decimal(n).len() >= width ==> padded(n as int, width) == number::decimal(n),
        number::digits_value(padded(n as int, width), 10) == Some(n),
        n > 0 ==> padded(-(n as int), width) == seq!['-'] + padded(n as int, width - 1),
{
    let d = number::decimal(n);
    number::number_text_round_trip(n, 10, n);
    number::numbers_have_no_leading_zeros(n, 10);
    lemma_zeros_before(width - d.len(), d);
    if d.len() >= width {
        assert(zeros(width - d.len()) + d =~= d);
    }
    lemma_first_digit(n);
    if n > 0 {
        assert(-(-(n as int)) == n);
        assert(padded(-(n as int), width) =~= seq!['-'] + padded(n as int, width - 1));
    }
}

/// The parts of a day are written as is asked for: a month by its name, its short name or its number, a
/// number with or without a zero before it, a year whole or by its last two digits.
pub proof fn dates_are_written_as_asked(o: DateOptsView, c: Civil, y: int)
    ensures
        year_text(None, y) == padded(y, 4),
        0 <= y ==> year_text(Some("2-digit"@), y) == padded(y % 100, 2),
        month_text(Some("long"@), c.month) == month_name(c.month),
        month_text(Some("short"@), c.month) == month_short(c.month),
        month_text(Some("numeric"@), c.month) == number::decimal(c.month as nat),
        month_text(None, c.month) == padded(c.month as int, 2),
        day_text(Some("numeric"@), c.day) == number::decimal(c.day as nat),
        day_text(None, c.day) == padded(c.day as int, 2),
        o.year is None && o.month is None && o.day is None ==> date_text(o, c) == padded(
            c.month as int,
            2,
        ) + "/"@ + padded(c.day as int, 2) + "/"@ + padded(c.year as int, 4),
        o.year is Some || o.month is Some || o.day is Some ==> date_text(o, c) == month_text(
            o.month,
            c.month,
        ) + " "@ + day_text(o.day, c.day) + ", "@ + year_text(o.year, c.year as int),
        o.second is None ==> time_text(o, c) == padded(c.hour as int, 2) + ":"@ + padded(
            c.minute as int,
            2,
        ),
        o.second is Some ==> time_text(o, c) == time_text(
            DateOptsView { second: None, ..o },
            c,
        ) + ":"@ + padded(c.second as int, 2),
{
    reveal_strlit("long");
    reveal_strlit("short");
    reveal_strlit("numeric");
    assert("long"@.len() == 4 && "short"@.len() == 5 && "numeric"@.len() == 7);
}

/// A moment is written with its day always, behind the day of the week and before the time where these
/// are asked for.
pub proof fn moments_are_written_in_order(o: DateOptsView, c: Civil, weekday: u32)
    ensures
        moment_parts(o, c, weekday).contains(date_text(o, c)),
        moment_parts(o, c, weekday).len() == 1 + (if o.weekday is Some {
            1int
        } else {
            0int
        }) + (if o.hour is Some || o.minute is Some || o.second is Some {
            1int
        } else {
            0int
        }),
        o.weekday is Some ==> moment_parts(o, c, weekday)[0] == day_name(weekday) && moment_parts(
            o,
            c,
            weekday,
        )[1] == date_text(o, c),
        o.weekday is None ==> moment_parts(o, c, weekday)[0] == date_text(o, c),
        o.hour is Some || o.minute is Some || o.second is Some ==> moment_parts(
            o,
            c,
            weekday,
        ).last() == time_text(o, c),
{
    let k: int = if o.weekday is Some {
        1
    } else {
        0
    };
    assert(moment_parts(o, c, weekday)[k] == date_text(o, c));
}

/// The items of a list stand in order, with commas between them and an `and` before the last; one item
/// stands alone, and two have no comma.
pub proof fn lists_are_written(v: Seq<Seq<char>>, a: Seq<char>, b: Seq<char>, c: Seq<char>)
    ensures
        list_text(Seq::empty()).len() == 0,
        list_text(seq![a]) == a,
        list_text(seq![a, b]) == a + " and "@ + b,
        list_text(seq![a, b, c]) == a + ", "@ + b + ", and "@ + c,
        v.len() >= 2 ==> list_text(v.push(c)) == text::joined(v, ", "@) + ", and "@ + c,
{
    reveal_with_fuel(text::joined, 3);
    let w = seq![a, b, c];
    assert(w.drop_last() =~= seq![a, b]);
    assert(w.last() == c);
    assert(seq![a, b].drop_last() =~= seq![a]);
    assert(text::joined(seq![a, b], ", "@) =~= a + ", "@ + b);
    assert(v.push(c).drop_last() =~= v);
}

/// A span that is over is counted as one to come is, and one of a unit has no `s` behind it.
pub proof fn spans_are_counted_alike(n: int, unit: Seq<char>)
    requires
        unit.len() > 0,
        unit.last() != 's',
    ensures
        n > 0 ==> span_text(n, unit) == "in "@ + counted(n, unit),
        n > 0 ==> span_text(-n, unit) == counted(n, unit) + " ago"@,
        span_text(0, unit) == "now"@,
        counted(1, unit) == number::decimal(1) + " "@ + unit,
        n > 1 ==> counted(n, unit) == number::decimal(n as nat) + " "@ + unit.push('s'),
        counted(n, unit.push('s')) == counted(n, unit),
{
    reveal_strlit("");
    reveal_strlit("s");
    let k = CharClass::Is('s');
    reveal_with_fuel(text::chop_class, 3);
    assert(!k.has_char(unit.last()));
    assert(text::chop_class(unit, k) == unit);
    assert(unit.push('s').drop_last() =~= unit);
    assert(text::chop_class(unit.push('s'), k) == unit);
    assert(counted(1, unit) =~= number::decimal(1) + " "@ + unit);
    if n > 1 {
        assert(counted(n, unit) =~= number::decimal(n as nat) + " "@ + unit.push('s'));
    }
}

/// The region of a tag is its first part of two letters, and there is none where no part is.
pub proof fn first_region_counts(parts: Seq<Seq<char>>, i: int)
    requires
        0 <= i < parts.len(),
        forall|j: int| 0 <= j < i ==> !is_region(#[trigger] parts[j]),
    ensures
        is_region(parts[i]) ==> region_of(parts) == parts[i],
        i == parts.len() - 1 && !is_region(parts[i]) ==> region_of(parts).len() == 0,
        is_region(parts[i]) ==> parts[i].len() == 2,
    decreases i,
{
    reveal_strlit("");
    reveal_with_fuel(region_of, 2);
    if i > 0 {
        assert(!is_region(parts[0]));
        let rest = parts.skip(1);
        assert forall|j: int| 0 <= j < i - 1 implies !is_region(#[trigger] rest[j]) by {
            assert(rest[j] == parts[j + 1]);
        }
        first_region_counts(rest, i - 1);
        assert(rest[i - 1] == parts[i]);
    } else if parts.len() == 1 {
        assert(parts.skip(1).len() == 0);
    }
}

/// The words of a text come with their places: each behind the one before and the character that parts
/// them.
pub proof fn words_come_with_their_places(s: Seq<char>, i: int)
    requires
        0 <= i < text::words(s, CharClass::Space).len(),
        place_of(text::words(s, CharClass::Space), i) < 0x1_0000_0000,
    ensures
        segments_of(s).len() == text::words(s, CharClass::Space).len(),
        segments_of(s)[i].0 == text::words(s, CharClass::Space)[i],
        segments_of(s)[i].1 == place_of(text::words(s, CharClass::Space), i),
        i == 0 ==> segments_of(s)[i].1 == 0,
        i > 0 ==> place_of(text::words(s, CharClass::Space), i) == place_of(
            text::words(s, CharClass::Space),
            i - 1,
        ) + encode_utf8(text::words(s, CharClass::Space)[i - 1]).len() + 1,
{
    lemma_place_positive(text::words(s, CharClass::Space), i);
}

proof fn lemma_place_positive(v: Seq<Seq<char>>, i: int)
    ensures
        place_of(v, i) >= 0,
    decreases i,
{
    if i > 0 {
        lemma_place_positive(v, i - 1);
    }
}

/// A text that comes before another is less, one that comes behind it more, and the same is neither.
pub proof fn texts_are_compared(a: Seq<char>, b: Seq<char>)
    ensures
        order_of(a, b) == 0 <==> a == b,
        order_of(a, b) < 0 <==> a != b && sort::before(a, b),
        order_of(a, b) > 0 <==> a != b && sort::before(b, a),
{
    sort::texts_have_one_order(a, b, a);
}

/// A part of a tag is a region where it is two letters of ASCII, in either case.
pub proof fn regions_are_two_letters(a: char, b: char, p: Seq<char>)
    ensures
        is_region(seq![a, b]) <==> ('a' <= a <= 'z' || 'A' <= a <= 'Z') && ('a' <= b <= 'z' || 'A'
            <= b <= 'Z'),
        p.len() != 2 ==> !is_region(p),
{
}

} // verus!
