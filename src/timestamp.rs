use vstd::prelude::*;

verus! {

pub const SECS_PER_DAY: u64 = 86400;

pub const EPOCH_YEAR: u64 = 1970;

/// Gregorian leap year rule.
pub open spec fn is_leap_year(y: int) -> bool {
    y % 4 == 0 && (y % 100 != 0 || y % 400 == 0)
}

pub open spec fn year_length(y: int) -> int {
    if is_leap_year(y) {
        366
    } else {
        365
    }
}

/// Days of the year that lie before the first day of month `m` (1 to 13).
pub open spec fn days_before_month(leap: bool, m: int) -> int {
    let l: int = if leap {
        1
    } else {
        0
    };
    if m <= 1 {
        0
    } else if m == 2 {
        31
    } else if m == 3 {
        59 + l
    } else if m == 4 {
        90 + l
    } else if m == 5 {
        120 + l
    } else if m == 6 {
        151 + l
    } else if m == 7 {
        181 + l
    } else if m == 8 {
        212 + l
    } else if m == 9 {
        243 + l
    } else if m == 10 {
        273 + l
    } else if m == 11 {
        304 + l
    } else if m == 12 {
        334 + l
    } else {
        365 + l
    }
}

pub open spec fn month_length(leap: bool, m: int) -> int {
    days_before_month(leap, m + 1) - days_before_month(leap, m)
}

/// The month (1 to 12) holding the zero-based day `r` of a year.
pub open spec fn month_of_day(leap: bool, r: int) -> int {
    if r < days_before_month(leap, 2) {
        1
    } else if r < days_before_month(leap, 3) {
        2
    } else if r < days_before_month(leap, 4) {
        3
    } else if r < days_before_month(leap, 5) {
        4
    } else if r < days_before_month(leap, 6) {
        5
    } else if r < days_before_month(leap, 7) {
        6
    } else if r < days_before_month(leap, 8) {
        7
    } else if r < days_before_month(leap, 9) {
        8
    } else if r < days_before_month(leap, 10) {
        9
    } else if r < days_before_month(leap, 11) {
        10
    } else if r < days_before_month(leap, 12) {
        11
    } else {
        12
    }
}

/// Counting `days` forward from 1 January of `year`: the year reached and the
/// zero-based day within it.
pub open spec fn year_split(year: nat, days: nat) -> (nat, nat)
    decreases days,
{
    if days < year_length(year as int) {
        (year, days)
    } else {
        year_split(year + 1, (days - year_length(year as int)) as nat)
    }
}

/// A UTC calendar date and time of day, to the second.
#[derive(Clone, Copy, Debug, PartialEq, Eq, Structural)]
pub struct WireTime {
    pub year: u64,
    pub month: u64,
    pub day: u64,
    pub hour: u64,
    pub minute: u64,
    pub second: u64,
}

/// The calendar date and time of `secs` seconds after 1970-01-01T00:00:00Z.
pub open spec fn civil_of(secs: nat) -> WireTime {
    let split = year_split(EPOCH_YEAR as nat, secs / (SECS_PER_DAY as nat));
    let leap = is_leap_year(split.0 as int);
    let m = month_of_day(leap, split.1 as int);
    let tod = secs % (SECS_PER_DAY as nat);
    WireTime {
        year: split.0 as u64,
        month: m as u64,
        day: (split.1 - days_before_month(leap, m) + 1) as u64,
        hour: (tod / 3600) as u64,
        minute: (tod % 3600 / 60) as u64,
        second: (tod % 60) as u64,
    }
}

/// A well-formed calendar date and time.
pub open spec fn valid_time(t: WireTime) -> bool {
    &&& 1 <= t.month <= 12
    &&& 1 <= t.day <= month_length(is_leap_year(t.year as int), t.month as int)
    &&& t.hour < 24
    &&& t.minute < 60
    &&& t.second < 60
}

/// The character for a decimal digit.
pub open spec fn digit_char(d: nat) -> char {
    ((d + 48) as u8) as char
}

/// Decimal digits of `n`, without leading zeros.
pub open spec fn decimal(n: nat) -> Seq<char>
    decreases n,
{
    if n < 10 {
        seq![digit_char(n)]
    } else {
        decimal(n / 10).push(digit_char(n % 10))
    }
}

/// Two decimal digits of `n`, with a leading zero below ten.
pub open spec fn two_digits(n: nat) -> Seq<char> {
    seq![digit_char(n / 10), digit_char(n % 10)]
}

/// `YYYY-MM-DDTHH:MM:SSZ`.
pub open spec fn render(t: WireTime) -> Seq<char> {
    decimal(t.year as nat) + seq!['-'] + two_digits(t.month as nat) + seq!['-'] + two_digits(
        t.day as nat,
    ) + seq!['T'] + two_digits(t.hour as nat) + seq![':'] + two_digits(t.minute as nat) + seq![
        ':',
    ] + two_digits(t.second as nat) + seq!['Z']
}

/// The wire timestamp of `secs` seconds after the Unix epoch.
pub open spec fn wire_of(secs: nat) -> Seq<char> {
    render(civil_of(secs))
}

pub proof fn lemma_year_split(year: nat, days: nat)
    ensures
        year_split(year, days).0 >= year,
        year_split(year, days).1 < year_length(year_split(year, days).0 as int),
    decreases days,
{
    if days >= year_length(year as int) {
        lemma_year_split(year + 1, (days - year_length(year as int)) as nat);
    }
}

/// Every instant has a well-formed calendar form, from 1970 on.
pub proof fn lemma_civil_valid(secs: nat)
    requires
        secs <= u64::MAX,
    ensures
        valid_time(civil_of(secs)),
        civil_of(secs).year >= EPOCH_YEAR,
        civil_of(secs).year as nat == year_split(EPOCH_YEAR as nat, secs / (SECS_PER_DAY as nat)).0,
{
    let days = secs / (SECS_PER_DAY as nat);
    lemma_year_split(EPOCH_YEAR as nat, days);
    lemma_year_bound(EPOCH_YEAR as nat, days);
    let split = year_split(EPOCH_YEAR as nat, days);
    let leap = is_leap_year(split.0 as int);
    let m = month_of_day(leap, split.1 as int);
    assert(1 <= m <= 12);
    assert(days_before_month(leap, m) <= split.1 < days_before_month(leap, m + 1));
    let tod = secs % (SECS_PER_DAY as nat);
    assert(tod / 3600 < 24);
    assert(tod % 3600 / 60 < 60);
}

proof fn lemma_year_bound(year: nat, days: nat)
    ensures
        year_split(year, days).0 <= year + days,
    decreases days,
{
    if days >= year_length(year as int) {
        lemma_year_bound(year + 1, (days - year_length(year as int)) as nat);
    }
}

fn is_leap(y: u64) -> (r: bool)
    ensures
        r == is_leap_year(y as int),
{
    y % 4 == 0 && (y % 100 != 0 || y % 400 == 0)
}

fn month_days(leap: bool, m: u64) -> (r: u64)
    requires
        1 <= m <= 12,
    ensures
        r == month_length(leap, m as int),
{
    if m == 2 {
        if leap {
            29
        } else {
            28
        }
    } else if m == 4 || m == 6 || m == 9 || m == 11 {
        30
    } else {
        31
    }
}

/// The calendar date and time of a Unix timestamp.
pub fn civil_from_unix(secs: u64) -> (t: WireTime)
    ensures
        t == civil_of(secs as nat),
        valid_time(t),
{
    proof {
        lemma_civil_valid(secs as nat);
        lemma_year_split(EPOCH_YEAR as nat, (secs / SECS_PER_DAY) as nat);
        lemma_year_bound(EPOCH_YEAR as nat, (secs / SECS_PER_DAY) as nat);
    }
    let days: u64 = secs / SECS_PER_DAY;
    let tod: u64 = secs % SECS_PER_DAY;
    let mut rem: u64 = days;
    let mut year: u64 = EPOCH_YEAR;
    let mut len: u64 = if is_leap(year) {
        366
    } else {
        365
    };
    while rem >= len
        invariant
            rem <= days,
            EPOCH_YEAR <= year <= EPOCH_YEAR + (days - rem),
            days == secs / SECS_PER_DAY,
            len == year_length(year as int),
            year_split(year as nat, rem as nat) == year_split(EPOCH_YEAR as nat, days as nat),
        decreases rem,
    {
        rem = rem - len;
        year = year + 1;
        len = if is_leap(year) {
            366
        } else {
            365
        };
    }
    let leap = is_leap(year);
    let ghost r = rem as int;
    let mut month: u64 = 1;
    let mut dim: u64 = month_days(leap, 1);
    while month < 12 && rem >= dim
        invariant
            1 <= month <= 12,
            r < year_length(year as int),
            r >= days_before_month(leap, month as int),
            rem == r - days_before_month(leap, month as int),
            dim == month_length(leap, month as int),
            leap == is_leap_year(year as int),
        decreases 12 - month,
    {
        rem = rem - dim;
        month = month + 1;
        dim = month_days(leap, month);
    }
    WireTime {
        year,
        month,
        day: rem + 1,
        hour: tod / 3600,
        minute: tod % 3600 / 60,
        second: tod % 60,
    }
}


/// Relies on `String::push`: appends one character.
#[verifier::external_body]
pub(crate) fn push_char(s: &mut String, c: char)
    ensures
        final(s)@ == old(s)@.push(c),
{
    s.push(c);
}

fn digit(d: u64) -> (c: char)
    requires
        d < 10,
    ensures
        c == digit_char(d as nat),
{
    let x: u8 = (d as u8) + 48;
    x as char
}

fn push_decimal(s: &mut String, n: u64)
    ensures
        final(s)@ == old(s)@ + decimal(n as nat),
    decreases n,
{
    if n >= 10 {
        push_decimal(s, n / 10);
    }
    push_char(s, digit(n % 10));
    assert(final(s)@ =~= old(s)@ + decimal(n as nat));
}

fn push_two_digits(s: &mut String, n: u64)
    requires
        n < 100,
    ensures
        final(s)@ == old(s)@ + two_digits(n as nat),
{
    push_char(s, digit(n / 10));
    push_char(s, digit(n % 10));
    assert(final(s)@ =~= old(s)@ + two_digits(n as nat));
}

/// Renders a calendar date and time as `YYYY-MM-DDTHH:MM:SSZ`.
pub fn render_wire(t: &WireTime) -> (r: String)
    requires
        valid_time(*t),
    ensures
        r@ == render(*t),
{
    let mut s = String::new();
    push_decimal(&mut s, t.year);
    push_char(&mut s, '-');
    push_two_digits(&mut s, t.month);
    push_char(&mut s, '-');
    push_two_digits(&mut s, t.day);
    push_char(&mut s, 'T');
    push_two_digits(&mut s, t.hour);
    push_char(&mut s, ':');
    push_two_digits(&mut s, t.minute);
    push_char(&mut s, ':');
    push_two_digits(&mut s, t.second);
    push_char(&mut s, 'Z');
    assert(s@ =~= render(*t));
    s
}

/// The wire timestamp of a Unix time in seconds.
pub fn format_unix_to_iso(secs: u64) -> (r: String)
    ensures
        r@ == wire_of(secs as nat),
{
    let t = civil_from_unix(secs);
    render_wire(&t)
}

/// The wire timestamp `window` seconds before `now`.
pub fn cutoff(now: u64, window: u64) -> (r: String)
    requires
        window <= now,
    ensures
        r@ == wire_of((now - window) as nat),
{
    format_unix_to_iso(now - window)
}


pub open spec fn is_digit(c: char) -> bool {
    '0' <= c <= '9'
}

pub open spec fn digit_value(c: char) -> nat {
    (c as u32 - 48) as nat
}

/// The number that a string of decimal digits denotes.
pub open spec fn digits_value(s: Seq<char>) -> nat
    decreases s.len(),
{
    if s.len() == 0 {
        0
    } else {
        digits_value(s.drop_last()) * 10 + digit_value(s.last())
    }
}

pub open spec fn all_digits(s: Seq<char>) -> bool {
    forall|i: int| 0 <= i < s.len() ==> is_digit(#[trigger] s[i])
}

/// The value of the two digits at `i` and `i + 1`.
pub open spec fn pair_value(s: Seq<char>, i: int) -> nat {
    digit_value(s[i]) * 10 + digit_value(s[i + 1])
}

/// `s` has the shape `Y...Y-MM-DDTHH:MM:SSZ`, with at least four year digits.
pub open spec fn wire_shaped(s: Seq<char>) -> bool {
    let n = s.len() as int;
    &&& n >= 20
    &&& all_digits(s.subrange(0, n - 16))
    &&& s[n - 16] == '-' && s[n - 13] == '-' && s[n - 10] == 'T'
    &&& s[n - 7] == ':' && s[n - 4] == ':' && s[n - 1] == 'Z'
    &&& forall|k: int|
        #![trigger s[k]]
        n - 16 < k < n - 1 && k != n - 13 && k != n - 10 && k != n - 7 && k != n - 4
            ==> is_digit(s[k])
}

/// The fields that a wire-shaped string spells out.
pub open spec fn wire_fields(s: Seq<char>) -> (nat, nat, nat, nat, nat, nat) {
    let n = s.len() as int;
    (
        digits_value(s.subrange(0, n - 16)),
        pair_value(s, n - 15),
        pair_value(s, n - 12),
        pair_value(s, n - 9),
        pair_value(s, n - 6),
        pair_value(s, n - 3),
    )
}

/// What a wire timestamp denotes: `None` unless it is wire-shaped, its year fits
/// in 64 bits and the date and time are well-formed.
pub open spec fn parse_spec(s: Seq<char>) -> Option<WireTime> {
    let f = wire_fields(s);
    let t = WireTime {
        year: f.0 as u64,
        month: f.1 as u64,
        day: f.2 as u64,
        hour: f.3 as u64,
        minute: f.4 as u64,
        second: f.5 as u64,
    };
    if wire_shaped(s) && f.0 <= u64::MAX && valid_time(t) {
        Some(t)
    } else {
        None
    }
}

proof fn lemma_decimal(n: nat)
    ensures
        decimal(n).len() >= 1,
        all_digits(decimal(n)),
        digits_value(decimal(n)) == n,
        n >= 10 ==> decimal(n).len() >= 2,
        n >= 100 ==> decimal(n).len() >= 3,
        n >= 1000 ==> decimal(n).len() >= 4,
    decreases n,
{
    lemma_digit_char(n % 10);
    if n >= 10 {
        lemma_decimal(n / 10);
        let d = decimal(n);
        assert(d.drop_last() =~= decimal(n / 10));
        assert(d.last() == digit_char(n % 10));
        assert(digits_value(d) == digits_value(decimal(n / 10)) * 10 + n % 10);
        assert(n == (n / 10) * 10 + n % 10);
    } else {
        assert(decimal(n).drop_last() =~= Seq::<char>::empty());
        assert(digits_value(Seq::<char>::empty()) == 0);
        assert(digits_value(decimal(n)) == digit_value(digit_char(n)));
    }
}

proof fn lemma_digit_char(d: nat)
    requires
        d < 10,
    ensures
        is_digit(digit_char(d)),
        digit_value(digit_char(d)) == d,
{
}

proof fn lemma_digits_prefix(s: Seq<char>, i: int)
    requires
        0 <= i <= s.len(),
    ensures
        digits_value(s.subrange(0, i)) <= digits_value(s),
    decreases s.len(),
{
    if i < s.len() {
        assert(s.drop_last() =~= s.subrange(0, s.len() - 1));
        assert(s.subrange(0, i) =~= s.drop_last().subrange(0, i));
        lemma_digits_prefix(s.drop_last(), i);
    } else {
        assert(s.subrange(0, i) =~= s);
    }
}

/// Rendering a well-formed date and time and reading it back gives the same
/// year, month, day, hour, minute and second.
pub proof fn lemma_render_parse(t: WireTime)
    requires
        valid_time(t),
        t.year >= 1000,
    ensures
        parse_spec(render(t)) == Some(t),
{
    lemma_decimal(t.year as nat);
    let y = decimal(t.year as nat);
    let s = render(t);
    let n = s.len() as int;
    assert(n == y.len() + 16);
    assert(s.subrange(0, n - 16) =~= y);
    assert forall|k: int| #![trigger s[k]] n - 16 <= k < n implies s[k] == render(t)[k] by {}
    assert(s[n - 16] == '-');
    let f = wire_fields(s);
    assert(f.1 == t.month);
    assert(f.2 == t.day);
    assert(f.3 == t.hour);
    assert(f.4 == t.minute);
    assert(f.5 == t.second);
}

/// The wire form of any instant reads back as that instant's calendar form.
pub proof fn lemma_wire_round_trip(secs: nat)
    requires
        secs <= u64::MAX,
    ensures
        parse_spec(wire_of(secs)) == Some(civil_of(secs)),
{
    lemma_civil_valid(secs);
    lemma_render_parse(civil_of(secs));
}

fn digit_at(s: &str, i: usize) -> (r: Option<u64>)
    requires
        i < s@.len(),
    ensures
        r == (if is_digit(s@[i as int]) {
            Some(digit_value(s@[i as int]) as u64)
        } else {
            None::<u64>
        }),
{
    let c = s.get_char(i);
    if '0' <= c && c <= '9' {
        Some(((c as u32) - 48) as u64)
    } else {
        None
    }
}

fn pair_at(s: &str, i: usize) -> (r: Option<u64>)
    requires
        i + 1 < s@.len(),
        s@.len() <= usize::MAX,
    ensures
        r == (if is_digit(s@[i as int]) && is_digit(s@[i + 1]) {
            Some(pair_value(s@, i as int) as u64)
        } else {
            None::<u64>
        }),
{
    match (digit_at(s, i), digit_at(s, i + 1)) {
        (Some(a), Some(b)) => Some(a * 10 + b),
        _ => None,
    }
}

/// Reads a wire timestamp back into its calendar form.
pub fn parse_wire(s: &str) -> (r: Option<WireTime>)
    ensures
        r == parse_spec(s@),
{
    let n = s.unicode_len();
    if n < 20 {
        return None;
    }
    let ylen = n - 16;
    let mut year: u64 = 0;
    let mut i: usize = 0;
    while i < ylen
        invariant
            n == s@.len(),
            n <= usize::MAX,
            ylen == n - 16,
            i <= ylen,
            all_digits(s@.subrange(0, i as int)),
            year == digits_value(s@.subrange(0, i as int)),
        decreases ylen - i,
    {
        let ghost pre = s@.subrange(0, i as int);
        let ghost next = s@.subrange(0, i + 1);
        assert(next.drop_last() =~= pre);
        match digit_at(s, i) {
            None => {
                assert(!is_digit(s@.subrange(0, ylen as int)[i as int]));
                return None;
            },
            Some(d) => {
                proof {
                    lemma_digits_prefix(s@.subrange(0, ylen as int), i + 1);
                    assert(s@.subrange(0, ylen as int).subrange(0, i + 1) =~= next);
                }
                match year.checked_mul(10) {
                    None => {
                        return None;
                    },
                    Some(y10) => match y10.checked_add(d) {
                        None => {
                            return None;
                        },
                        Some(y) => {
                            year = y;
                        },
                    },
                }
            },
        }
        i = i + 1;
    }
    assert(s@.subrange(0, ylen as int) =~= s@.subrange(0, i as int));
    let c1 = s.get_char(n - 16);
    let c2 = s.get_char(n - 13);
    let c3 = s.get_char(n - 10);
    let c4 = s.get_char(n - 7);
    let c5 = s.get_char(n - 4);
    let c6 = s.get_char(n - 1);
    if c1 != '-' || c2 != '-' || c3 != 'T' || c4 != ':' || c5 != ':' || c6 != 'Z' {
        return None;
    }
    let month = pair_at(s, n - 15);
    let day = pair_at(s, n - 12);
    let hour = pair_at(s, n - 9);
    let minute = pair_at(s, n - 6);
    let second = pair_at(s, n - 3);
    match (month, day, hour, minute, second) {
        (Some(mo), Some(d), Some(h), Some(mi), Some(se)) => {
            assert(wire_shaped(s@));
            if mo < 1 || mo > 12 || d < 1 || d > month_days(is_leap(year), mo) || h >= 24
                || mi >= 60 || se >= 60 {
                return None;
            }
            Some(WireTime { year, month: mo, day: d, hour: h, minute: mi, second: se })
        },
        _ => None,
    }
}


/// Strict lexicographic order on character strings, as `<` orders `String`s.
pub open spec fn lex_lt(a: Seq<char>, b: Seq<char>) -> bool
    decreases a.len(),
{
    if a.len() == 0 {
        b.len() > 0
    } else if b.len() == 0 {
        false
    } else if a[0] != b[0] {
        a[0] < b[0]
    } else {
        lex_lt(a.drop_first(), b.drop_first())
    }
}

pub open spec fn lex_le(a: Seq<char>, b: Seq<char>) -> bool {
    lex_lt(a, b) || a == b
}

pub proof fn lemma_lex_irreflexive(a: Seq<char>)
    ensures
        !lex_lt(a, a),
    decreases a.len(),
{
    if a.len() > 0 {
        lemma_lex_irreflexive(a.drop_first());
    }
}

pub proof fn lemma_lex_trans(a: Seq<char>, b: Seq<char>, c: Seq<char>)
    requires
        lex_lt(a, b),
        lex_lt(b, c),
    ensures
        lex_lt(a, c),
    decreases a.len(),
{
    if a.len() > 0 && b.len() > 0 && c.len() > 0 && a[0] == b[0] && b[0] == c[0] {
        lemma_lex_trans(a.drop_first(), b.drop_first(), c.drop_first());
    }
}

pub proof fn lemma_lex_total(a: Seq<char>, b: Seq<char>)
    ensures
        lex_lt(a, b) || lex_lt(b, a) || a == b,
    decreases a.len(),
{
    if a.len() > 0 && b.len() > 0 && a[0] == b[0] {
        lemma_lex_total(a.drop_first(), b.drop_first());
        if a.drop_first() == b.drop_first() {
            assert(a =~= seq![a[0]] + a.drop_first());
            assert(b =~= seq![b[0]] + b.drop_first());
        }
    } else if a.len() == 0 && b.len() == 0 {
        assert(a =~= b);
    }
}

/// Whether `a` comes strictly before `b` in character order.
pub fn wire_less(a: &str, b: &str) -> (r: bool)
    ensures
        r == lex_lt(a@, b@),
{
    let n = a.unicode_len();
    let m = b.unicode_len();
    let mut i: usize = 0;
    assert(a@.subrange(0, n as int) =~= a@);
    assert(b@.subrange(0, m as int) =~= b@);
    while i < n && i < m
        invariant
            n == a@.len(),
            m == b@.len(),
            i <= n,
            i <= m,
            lex_lt(a@, b@) == lex_lt(a@.subrange(i as int, n as int), b@.subrange(i as int, m as int)),
        decreases n - i,
    {
        let x = a.get_char(i);
        let y = b.get_char(i);
        let ghost sa = a@.subrange(i as int, n as int);
        let ghost sb = b@.subrange(i as int, m as int);
        if x != y {
            return x < y;
        }
        assert(sa.drop_first() =~= a@.subrange(i + 1, n as int));
        assert(sb.drop_first() =~= b@.subrange(i + 1, m as int));
        i = i + 1;
    }
    i == n && i < m
}


/// Strict order of calendar forms: year, then month, day, hour, minute, second.
pub open spec fn time_lt(a: WireTime, b: WireTime) -> bool {
    if a.year != b.year {
        a.year < b.year
    } else if a.month != b.month {
        a.month < b.month
    } else if a.day != b.day {
        a.day < b.day
    } else if a.hour != b.hour {
        a.hour < b.hour
    } else if a.minute != b.minute {
        a.minute < b.minute
    } else {
        a.second < b.second
    }
}

proof fn lemma_year_split_order(year: nat, d1: nat, d2: nat)
    requires
        d1 < d2,
    ensures
        year_split(year, d1).0 < year_split(year, d2).0 || (year_split(year, d1).0 == year_split(
            year,
            d2,
        ).0 && year_split(year, d1).1 < year_split(year, d2).1),
    decreases d1,
{
    let len = year_length(year as int);
    if d1 >= len {
        lemma_year_split_order(year + 1, (d1 - len) as nat, (d2 - len) as nat);
    } else if d2 >= len {
        lemma_year_split(year + 1, (d2 - len) as nat);
    }
}

/// A later instant never has an earlier calendar form.
pub proof fn lemma_civil_monotone(a: nat, b: nat)
    requires
        a <= b <= u64::MAX,
    ensures
        civil_of(a) == civil_of(b) || time_lt(civil_of(a), civil_of(b)),
{
    lemma_civil_valid(a);
    lemma_civil_valid(b);
    let da = a / (SECS_PER_DAY as nat);
    let db = b / (SECS_PER_DAY as nat);
    assert(da <= db) by (nonlinear_arith)
        requires
            a <= b,
            da == a / 86400,
            db == b / 86400,
    ;
    if da < db {
        lemma_year_split_order(EPOCH_YEAR as nat, da, db);
        let s1 = year_split(EPOCH_YEAR as nat, da);
        let s2 = year_split(EPOCH_YEAR as nat, db);
        if s1.0 == s2.0 {
            let leap = is_leap_year(s1.0 as int);
            let m1 = month_of_day(leap, s1.1 as int);
            let m2 = month_of_day(leap, s2.1 as int);
            assert(m1 <= m2);
            assert(civil_of(a).month as int == m1);
            assert(civil_of(b).month as int == m2);
            if m1 == m2 {
                lemma_year_split(EPOCH_YEAR as nat, da);
                lemma_year_split(EPOCH_YEAR as nat, db);
                assert(days_before_month(leap, m1) <= s1.1 < s2.1 < 366);
                assert(civil_of(a).day < civil_of(b).day);
            }
        }
    } else {
        let ta = a % 86400;
        let tb = b % 86400;
        assert(ta <= tb) by (nonlinear_arith)
            requires
                a <= b,
                a / 86400 == b / 86400,
                ta == a % 86400,
                tb == b % 86400,
        ;
        assert(ta == (ta / 3600) * 3600 + (ta % 3600 / 60) * 60 + ta % 60) by (nonlinear_arith);
        assert(tb == (tb / 3600) * 3600 + (tb % 3600 / 60) * 60 + tb % 60) by (nonlinear_arith);
        assert(ta % 3600 / 60 < 60);
        assert(tb % 3600 / 60 < 60);
    }
}

/// Character `i` of a date and time written with a four-digit year.
pub open spec fn flat_char(t: WireTime, i: int) -> char {
    let y = t.year as nat;
    if i == 0 {
        digit_char(y / 1000)
    } else if i == 1 {
        digit_char(y / 100 % 10)
    } else if i == 2 {
        digit_char(y / 10 % 10)
    } else if i == 3 {
        digit_char(y % 10)
    } else if i == 4 || i == 7 {
        '-'
    } else if i == 5 {
        digit_char(t.month as nat / 10)
    } else if i == 6 {
        digit_char(t.month as nat % 10)
    } else if i == 8 {
        digit_char(t.day as nat / 10)
    } else if i == 9 {
        digit_char(t.day as nat % 10)
    } else if i == 10 {
        'T'
    } else if i == 11 {
        digit_char(t.hour as nat / 10)
    } else if i == 12 {
        digit_char(t.hour as nat % 10)
    } else if i == 13 || i == 16 {
        ':'
    } else if i == 14 {
        digit_char(t.minute as nat / 10)
    } else if i == 15 {
        digit_char(t.minute as nat % 10)
    } else if i == 17 {
        digit_char(t.second as nat / 10)
    } else if i == 18 {
        digit_char(t.second as nat % 10)
    } else {
        'Z'
    }
}

/// The twenty characters of a date and time with a four-digit year.
pub open spec fn flat(t: WireTime) -> Seq<char> {
    Seq::new(20, |i: int| flat_char(t, i))
}

proof fn lemma_render_flat(t: WireTime)
    requires
        1000 <= t.year < 10000,
    ensures
        render(t) == flat(t),
{
    let y = t.year as nat;
    assert(decimal(y / 1000) == seq![digit_char(y / 1000)]);
    assert(y / 10 / 10 / 10 == y / 1000);
    assert(y / 10 / 10 % 10 == y / 100 % 10);
    assert(decimal(y / 100) =~= seq![digit_char(y / 1000), digit_char(y / 100 % 10)]);
    assert(y / 10 / 10 == y / 100);
    assert(decimal(y / 10) =~= seq![
        digit_char(y / 1000),
        digit_char(y / 100 % 10),
        digit_char(y / 10 % 10),
    ]);
    assert(decimal(y) =~= seq![
        digit_char(y / 1000),
        digit_char(y / 100 % 10),
        digit_char(y / 10 % 10),
        digit_char(y % 10),
    ]);
    assert(render(t) =~= flat(t));
}

proof fn lemma_first_difference(a: Seq<char>, b: Seq<char>, i: int)
    requires
        0 <= i < a.len(),
        i < b.len(),
        forall|j: int| 0 <= j < i ==> a[j] == b[j],
        a[i] < b[i],
    ensures
        lex_lt(a, b),
    decreases i,
{
    if i > 0 {
        lemma_first_difference(a.drop_first(), b.drop_first(), i - 1);
    }
}

/// Index of the first character at which two two-digit fields starting at `k`
/// differ, given that the first is smaller.
proof fn lemma_pair_difference(a: Seq<char>, b: Seq<char>, k: int, x: nat, y: nat)
    requires
        x < y < 100,
        0 <= k,
        k + 1 < a.len(),
        a.len() == b.len(),
        forall|j: int| 0 <= j < k ==> a[j] == b[j],
        a[k] == digit_char(x / 10),
        a[k + 1] == digit_char(x % 10),
        b[k] == digit_char(y / 10),
        b[k + 1] == digit_char(y % 10),
    ensures
        lex_lt(a, b),
{
    lemma_digit_char(x / 10);
    lemma_digit_char(y / 10);
    lemma_digit_char(x % 10);
    lemma_digit_char(y % 10);
    if x / 10 < y / 10 {
        lemma_first_difference(a, b, k);
    } else {
        lemma_first_difference(a, b, k + 1);
    }
}

proof fn lemma_year_digits(y: nat)
    ensures
        y / 100 / 10 == y / 1000,
        y % 100 / 10 == y / 10 % 10,
        y % 100 % 10 == y % 10,
{
    assert(y / 100 / 10 == y / 1000) by (nonlinear_arith);
    assert(y % 100 / 10 == y / 10 % 10) by (nonlinear_arith);
    assert(y % 100 % 10 == y % 10) by (nonlinear_arith);
}

proof fn lemma_flat_order_year(t1: WireTime, t2: WireTime)
    requires
        t1.year < t2.year,
        1000 <= t1.year < 10000,
        1000 <= t2.year < 10000,
    ensures
        lex_lt(flat(t1), flat(t2)),
{
    let a = flat(t1);
    let b = flat(t2);
    let y1 = t1.year as nat;
    let y2 = t2.year as nat;
    lemma_year_digits(y1);
    lemma_year_digits(y2);
    if y1 / 100 != y2 / 100 {
        lemma_pair_difference(a, b, 0, y1 / 100, y2 / 100);
    } else {
        assert(y1 % 100 < y2 % 100);
        assert(a[0] == b[0] && a[1] == b[1]);
        lemma_pair_difference(a, b, 2, y1 % 100, y2 % 100);
    }
}

proof fn lemma_flat_order(t1: WireTime, t2: WireTime)
    requires
        time_lt(t1, t2),
        valid_time(t1),
        valid_time(t2),
        1000 <= t1.year < 10000,
        1000 <= t2.year < 10000,
    ensures
        lex_lt(flat(t1), flat(t2)),
{
    let a = flat(t1);
    let b = flat(t2);
    if t1.year != t2.year {
        lemma_flat_order_year(t1, t2);
    } else {
        assert(forall|j: int| 0 <= j < 5 ==> a[j] == b[j]);
        if t1.month != t2.month {
            lemma_pair_difference(a, b, 5, t1.month as nat, t2.month as nat);
        } else {
            assert(forall|j: int| 0 <= j < 8 ==> a[j] == b[j]);
            if t1.day != t2.day {
                lemma_pair_difference(a, b, 8, t1.day as nat, t2.day as nat);
            } else {
                assert(forall|j: int| 0 <= j < 11 ==> a[j] == b[j]);
                if t1.hour != t2.hour {
                    lemma_pair_difference(a, b, 11, t1.hour as nat, t2.hour as nat);
                } else {
                    assert(forall|j: int| 0 <= j < 14 ==> a[j] == b[j]);
                    if t1.minute != t2.minute {
                        lemma_pair_difference(a, b, 14, t1.minute as nat, t2.minute as nat);
                    } else {
                        assert(forall|j: int| 0 <= j < 17 ==> a[j] == b[j]);
                        lemma_pair_difference(a, b, 17, t1.second as nat, t2.second as nat);
                    }
                }
            }
        }
    }
}

/// Wire timestamps sort as the instants they stand for, as long as the year has
/// four digits (up to the end of 9999).
pub proof fn lemma_wire_order(a: nat, b: nat)
    requires
        a <= b <= u64::MAX,
        civil_of(b).year < 10000,
    ensures
        lex_le(wire_of(a), wire_of(b)),
{
    lemma_civil_monotone(a, b);
    lemma_civil_valid(a);
    lemma_civil_valid(b);
    if civil_of(a) != civil_of(b) {
        lemma_render_flat(civil_of(a));
        lemma_render_flat(civil_of(b));
        lemma_flat_order(civil_of(a), civil_of(b));
    }
}

/// The last second whose wire form has a four-digit year: 9999-12-31T23:59:59Z.
pub const MAX_FOUR_DIGIT_SECS: u64 = 253402300799;

/// Leap years from year 1 through year `n`.
pub open spec fn leaps_through(n: int) -> int {
    n / 4 - n / 100 + n / 400
}

/// Days from 1970-01-01 to 1 January of year `y`.
pub open spec fn days_before_year(y: int) -> int {
    365 * (y - 1970) + leaps_through(y - 1) - leaps_through(1969)
}

/// Seconds from the Unix epoch to a calendar date and time.
pub open spec fn secs_of(t: WireTime) -> int {
    let leap = is_leap_year(t.year as int);
    86400 * (days_before_year(t.year as int) + days_before_month(leap, t.month as int) + t.day - 1)
        + 3600 * t.hour + 60 * t.minute + t.second
}

proof fn lemma_year_step(y: int)
    requires
        y >= 1970,
    ensures
        days_before_year(y + 1) == days_before_year(y) + year_length(y),
{
    assert(y / 4 - (y - 1) / 4 == (if y % 4 == 0 { 1int } else { 0int }));
    assert(y / 100 - (y - 1) / 100 == (if y % 100 == 0 { 1int } else { 0int }));
    assert(y / 400 - (y - 1) / 400 == (if y % 400 == 0 { 1int } else { 0int }));
}

proof fn lemma_year_split_days(year: nat, days: nat)
    requires
        year >= 1970,
    ensures
        days_before_year(year as int) + days == days_before_year(year_split(year, days).0 as int)
            + year_split(year, days).1,
    decreases days,
{
    let len = year_length(year as int);
    if days >= len {
        lemma_year_step(year as int);
        lemma_year_split_days(year + 1, (days - len) as nat);
    }
}

proof fn lemma_days_before_year_monotone(y1: int, y2: int)
    requires
        1970 <= y1 <= y2,
    ensures
        days_before_year(y1) <= days_before_year(y2),
    decreases y2 - y1,
{
    if y1 < y2 {
        lemma_days_before_year_monotone(y1, y2 - 1);
        lemma_year_step(y2 - 1);
    }
}

/// Up to the end of 9999, an instant's year has four digits.
pub proof fn lemma_four_digit_years(secs: nat)
    requires
        secs <= MAX_FOUR_DIGIT_SECS,
    ensures
        1970 <= civil_of(secs).year < 10000,
{
    let d = secs / (SECS_PER_DAY as nat);
    assert(d <= 2932896);
    lemma_civil_valid(secs);
    lemma_year_split_days(EPOCH_YEAR as nat, d);
    let y = year_split(EPOCH_YEAR as nat, d).0;
    if y >= 10000 {
        lemma_days_before_year_monotone(10000, y as int);
        assert(days_before_year(10000) == 2932897);
        assert(days_before_year(1970) == 0);
    }
}

/// The calendar form determines the instant: counting the seconds back gives it.
pub proof fn lemma_secs_of_civil(secs: nat)
    requires
        secs <= u64::MAX,
    ensures
        secs_of(civil_of(secs)) == secs,
{
    let d = secs / (SECS_PER_DAY as nat);
    lemma_civil_valid(secs);
    lemma_year_split(EPOCH_YEAR as nat, d);
    lemma_year_split_days(EPOCH_YEAR as nat, d);
    assert(days_before_year(1970) == 0);
    let split = year_split(EPOCH_YEAR as nat, d);
    let leap = is_leap_year(split.0 as int);
    let m = month_of_day(leap, split.1 as int);
    assert(days_before_month(leap, m) <= split.1);
    let t = civil_of(secs);
    assert(days_before_year(t.year as int) + days_before_month(leap, t.month as int) + t.day - 1
        == d);
    let tod = secs % 86400;
    assert(tod == (tod / 3600) * 3600 + (tod % 3600 / 60) * 60 + tod % 60) by (nonlinear_arith);
    assert(secs == 86400 * (secs / 86400) + secs % 86400) by (nonlinear_arith);
}

pub proof fn lemma_lex_asymmetric(a: Seq<char>, b: Seq<char>)
    requires
        lex_lt(a, b),
    ensures
        !lex_lt(b, a),
{
    if lex_lt(b, a) {
        lemma_lex_trans(a, b, a);
        lemma_lex_irreflexive(a);
    }
}

/// Through the end of 9999, a later instant has a wire timestamp that sorts
/// strictly later; in particular distinct instants have distinct wire forms.
pub proof fn lemma_wire_strict_order(a: nat, b: nat)
    requires
        a < b <= MAX_FOUR_DIGIT_SECS,
    ensures
        lex_lt(wire_of(a), wire_of(b)),
{
    lemma_four_digit_years(b);
    lemma_wire_order(a, b);
    if wire_of(a) == wire_of(b) {
        lemma_wire_round_trip(a);
        lemma_wire_round_trip(b);
        lemma_secs_of_civil(a);
        lemma_secs_of_civil(b);
    }
}

/// The cutoff `window` seconds before `now` never sorts after `now`'s wire
/// timestamp, and sorts strictly before it for a positive window, through the
/// end of 9999.
pub proof fn lemma_cutoff_before_now(now: nat, window: nat)
    requires
        window <= now <= MAX_FOUR_DIGIT_SECS,
    ensures
        lex_le(wire_of((now - window) as nat), wire_of(now)),
        window > 0 ==> lex_lt(wire_of((now - window) as nat), wire_of(now)),
{
    if window > 0 {
        lemma_wire_strict_order((now - window) as nat, now);
    }
}

} // verus!
