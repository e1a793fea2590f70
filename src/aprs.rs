use vstd::prelude::*;

use crate::gateway::Position;
use crate::geo::{dec_value, is_digit};
use crate::store::non_colon_run;
use crate::time_buckets::{time_to_datetime, time_to_datetime_spec, DAY_SECONDS};
use crate::units::FeetToMeter;

verus! {

/// A position report as the feed's line gives it, in exact units: the time of
/// day in seconds, the coordinates in 1/60000 of a degree (north and east
/// positive), the course in degrees and the altitude in feet.
pub struct APRSPosition {
    pub id: String,
    pub seconds_of_day: u32,
    pub latitude: i64,
    pub longitude: i64,
    pub course: i32,
    pub altitude_feet: u32,
}

pub open spec fn is_upper(c: char) -> bool {
    'A' <= c <= 'Z'
}

pub open spec fn is_hex_upper(c: char) -> bool {
    is_digit(c) || 'A' <= c <= 'F'
}

/// `n` digits start at `i`.
pub open spec fn digits_at(t: Seq<char>, i: int, n: int) -> bool {
    0 <= i && i + n <= t.len() && forall|k: int| i <= k < i + n ==> is_digit(#[trigger] t[k])
}

/// The value of the `n` characters at `i`, read as decimal digits.
pub open spec fn num_at(t: Seq<char>, i: int, n: int) -> int {
    dec_value(t.subrange(i, i + n)) as int
}

/// A sender id: three capital letters and six upper-case hexadecimal digits.
pub open spec fn id_at_start(t: Seq<char>) -> bool {
    &&& t.len() >= 9
    &&& forall|k: int| 0 <= k < 3 ==> is_upper(#[trigger] t[k])
    &&& forall|k: int| 3 <= k < 9 ==> is_hex_upper(#[trigger] t[k])
}

/// The index of the `:` that ends the header of a line.
pub open spec fn header_end(t: Seq<char>) -> int {
    non_colon_run(t, 9)
}

/// The report's fields are in place after the header's `:` at `p`:
/// `/HHMMSSh DDMM.mm[NS] x DDDMM.mm[WE] x CCC/SSS/A=AAAAAA`.
pub open spec fn body_at(t: Seq<char>, p: int) -> bool {
    &&& p + 44 <= t.len()
    &&& t[p + 1] == '/'
    &&& digits_at(t, p + 2, 2) && digits_at(t, p + 4, 2) && digits_at(t, p + 6, 2)
    &&& t[p + 8] == 'h'
    &&& digits_at(t, p + 9, 2) && digits_at(t, p + 11, 2)
    &&& t[p + 13] == '.'
    &&& digits_at(t, p + 14, 2)
    &&& (t[p + 16] == 'N' || t[p + 16] == 'S')
    &&& digits_at(t, p + 18, 3) && digits_at(t, p + 21, 2)
    &&& t[p + 23] == '.'
    &&& digits_at(t, p + 24, 2)
    &&& (t[p + 26] == 'W' || t[p + 26] == 'E')
    &&& digits_at(t, p + 28, 3)
    &&& t[p + 31] == '/'
    &&& digits_at(t, p + 32, 3)
    &&& t[p + 35] == '/'
    &&& t[p + 36] == 'A'
    &&& t[p + 37] == '='
    &&& digits_at(t, p + 38, 6)
    &&& num_at(t, p + 2, 2) < 24 && num_at(t, p + 4, 2) < 60 && num_at(t, p + 6, 2) < 60
}

/// The report has a precision enhancement ` !Wxy!` right after the altitude.
pub open spec fn has_enhancement(t: Seq<char>, p: int) -> bool {
    &&& p + 50 <= t.len()
    &&& t[p + 44] == ' '
    &&& t[p + 45] == '!'
    &&& t[p + 46] == 'W'
    &&& digits_at(t, p + 47, 2)
    &&& t[p + 49] == '!'
}

/// Whether a line is a position report that the gateway reads.
pub open spec fn is_report(t: Seq<char>) -> bool {
    let p = header_end(t);
    id_at_start(t) && p > 9 && p < t.len() && t[p] == ':' && body_at(t, p)
}

/// The latitude of a report in 1/60000 of a degree.
pub open spec fn latitude_spec(t: Seq<char>, p: int) -> int {
    let e = if has_enhancement(t, p) { num_at(t, p + 47, 1) } else { 0 };
    let a = num_at(t, p + 9, 2) * 60000 + num_at(t, p + 11, 2) * 1000 + num_at(t, p + 14, 2) * 10 + e;
    if t[p + 16] == 'N' { a } else { -a }
}

/// The longitude of a report in 1/60000 of a degree.
pub open spec fn longitude_spec(t: Seq<char>, p: int) -> int {
    let e = if has_enhancement(t, p) { num_at(t, p + 48, 1) } else { 0 };
    let a = num_at(t, p + 18, 3) * 60000 + num_at(t, p + 21, 2) * 1000 + num_at(t, p + 24, 2) * 10 + e;
    if t[p + 26] == 'E' { a } else { -a }
}

/// The time of day of a report, in seconds.
pub open spec fn seconds_of_day_spec(t: Seq<char>, p: int) -> int {
    num_at(t, p + 2, 2) * 3600 + num_at(t, p + 4, 2) * 60 + num_at(t, p + 6, 2)
}

/// The report that a line holds, field by field.
pub open spec fn report_spec(t: Seq<char>, r: APRSPosition) -> bool {
    let p = header_end(t);
    &&& r.id@ == t.take(9)
    &&& r.seconds_of_day == seconds_of_day_spec(t, p)
    &&& r.latitude == latitude_spec(t, p)
    &&& r.longitude == longitude_spec(t, p)
    &&& r.course == num_at(t, p + 28, 3)
    &&& r.altitude_feet == num_at(t, p + 38, 6)
}

/// Reads the `n` digits at `i`, if they are digits.
fn read_digits(t: &str, len: usize, i: usize, n: usize) -> (r: Option<u64>)
    requires
        len == t@.len(),
        n <= 6,
        i + n <= len,
    ensures
        digits_at(t@, i as int, n as int) ==> (r matches Some(v) && v == num_at(t@, i as int, n as int)),
        !digits_at(t@, i as int, n as int) ==> r is None,
        r matches Some(v) ==> v < crate::geo::pow10(n as nat),
{
    let mut k: usize = 0;
    let mut acc: u64 = 0;
    proof {
        crate::geo::lemma_pow10_small();
    }
    assert(t@.subrange(i as int, i as int) =~= Seq::<char>::empty());
    while k < n
        invariant
            len == t@.len(),
            n <= 6,
            i + n <= len,
            0 <= k <= n,
            forall|q: int| i <= q < i + k ==> is_digit(#[trigger] t@[q]),
            acc == dec_value(t@.subrange(i as int, i + k)),
            acc < crate::geo::pow10(k as nat),
            crate::geo::pow10(0) == 1 && crate::geo::pow10(1) == 10 && crate::geo::pow10(2) == 100,
            crate::geo::pow10(3) == 1000 && crate::geo::pow10(4) == 10000 && crate::geo::pow10(5) == 100000,
            crate::geo::pow10(6) == 1000000,
        decreases n - k,
    {
        let c = t.get_char(i + k);
        if !('0' <= c && c <= '9') {
            assert(!is_digit(t@[i + k]));
            return None;
        }
        let ghost sub = t@.subrange(i as int, i + k);
        assert(t@.subrange(i as int, i + k + 1) =~= sub.push(c));
        proof {
            crate::geo::lemma_dec_push(sub, c);
        }
        acc = acc * 10 + (c as u32 - 48) as u64;
        k = k + 1;
    }
    Some(acc)
}

fn is_upper_exec(c: char) -> (r: bool)
    ensures
        r == is_upper(c),
{
    'A' <= c && c <= 'Z'
}

fn is_hex_upper_exec(c: char) -> (r: bool)
    ensures
        r == is_hex_upper(c),
{
    ('0' <= c && c <= '9') || ('A' <= c && c <= 'F')
}

/// Whether the line starts with a sender id.
fn id_ok(t: &str, n: usize) -> (r: bool)
    requires
        n == t@.len(),
    ensures
        r == id_at_start(t@),
{
    if n < 9 {
        return false;
    }
    let mut k: usize = 0;
    while k < 9
        invariant
            n == t@.len(),
            n >= 9,
            0 <= k <= 9,
            forall|q: int| 0 <= q < k && q < 3 ==> is_upper(#[trigger] t@[q]),
            forall|q: int| 3 <= q < k ==> is_hex_upper(#[trigger] t@[q]),
        decreases 9 - k,
    {
        let c = t.get_char(k);
        if k < 3 {
            if !is_upper_exec(c) {
                return false;
            }
        } else if !is_hex_upper_exec(c) {
            return false;
        }
        k = k + 1;
    }
    true
}

/// The fields after the header, as `body_at` places them.
struct Body {
    hh: u64,
    mm: u64,
    ss: u64,
    lat_deg: u64,
    lat_min: u64,
    lat_hundredths: u64,
    north: bool,
    lon_deg: u64,
    lon_min: u64,
    lon_hundredths: u64,
    east: bool,
    course: u64,
    altitude: u64,
}

#[verifier::rlimit(60)]
fn read_body(t: &str, n: usize, p: usize) -> (r: Option<Body>)
    requires
        n == t@.len(),
        p < n,
    ensures
        body_at(t@, p as int) ==> (r matches Some(b) && b.hh == num_at(t@, p + 2, 2) && b.mm == num_at(t@, p + 4, 2)
            && b.ss == num_at(t@, p + 6, 2) && b.lat_deg == num_at(t@, p + 9, 2) && b.lat_min == num_at(t@, p + 11, 2)
            && b.lat_hundredths == num_at(t@, p + 14, 2) && b.north == (t@[p + 16] == 'N')
            && b.lon_deg == num_at(t@, p + 18, 3) && b.lon_min == num_at(t@, p + 21, 2)
            && b.lon_hundredths == num_at(t@, p + 24, 2) && b.east == (t@[p + 26] == 'E')
            && b.course == num_at(t@, p + 28, 3) && b.altitude == num_at(t@, p + 38, 6)),
        !body_at(t@, p as int) ==> r is None,
        r matches Some(b) ==> b.lat_deg < 100 && b.lat_min < 100 && b.lat_hundredths < 100 && b.lon_deg < 1000
            && b.lon_min < 100 && b.lon_hundredths < 100 && b.hh < 24 && b.mm < 60 && b.ss < 60 && b.course < 1000
            && b.altitude < 1000000,
{
    proof {
        crate::geo::lemma_pow10_small();
    }
    if n - p < 44 {
        return None;
    }
    if t.get_char(p + 1) != '/' || t.get_char(p + 8) != 'h' || t.get_char(p + 13) != '.' || t.get_char(p + 23) != '.'
        || t.get_char(p + 31) != '/' || t.get_char(p + 35) != '/' || t.get_char(p + 36) != 'A' || t.get_char(p + 37) != '=' {
        return None;
    }
    let ns = t.get_char(p + 16);
    let we = t.get_char(p + 26);
    if !(ns == 'N' || ns == 'S') || !(we == 'W' || we == 'E') {
        return None;
    }
    let hh = match read_digits(t, n, p + 2, 2) { Some(v) => v, None => return None };
    let mm = match read_digits(t, n, p + 4, 2) { Some(v) => v, None => return None };
    let ss = match read_digits(t, n, p + 6, 2) { Some(v) => v, None => return None };
    let lat_deg = match read_digits(t, n, p + 9, 2) { Some(v) => v, None => return None };
    let lat_min = match read_digits(t, n, p + 11, 2) { Some(v) => v, None => return None };
    let lat_hundredths = match read_digits(t, n, p + 14, 2) { Some(v) => v, None => return None };
    let lon_deg = match read_digits(t, n, p + 18, 3) { Some(v) => v, None => return None };
    let lon_min = match read_digits(t, n, p + 21, 2) { Some(v) => v, None => return None };
    let lon_hundredths = match read_digits(t, n, p + 24, 2) { Some(v) => v, None => return None };
    let course = match read_digits(t, n, p + 28, 3) { Some(v) => v, None => return None };
    let _speed = match read_digits(t, n, p + 32, 3) { Some(v) => v, None => return None };
    let altitude = match read_digits(t, n, p + 38, 6) { Some(v) => v, None => return None };
    if hh >= 24 || mm >= 60 || ss >= 60 {
        return None;
    }
    Some(Body {
        hh,
        mm,
        ss,
        lat_deg,
        lat_min,
        lat_hundredths,
        north: ns == 'N',
        lon_deg,
        lon_min,
        lon_hundredths,
        east: we == 'E',
        course,
        altitude,
    })
}

/// The two digits of a precision enhancement ` !Wxy!` after the altitude, if
/// the line has one.
fn read_enhancement(t: &str, n: usize, p: usize) -> (r: Option<(u64, u64)>)
    requires
        n == t@.len(),
        p + 44 <= n,
    ensures
        has_enhancement(t@, p as int) ==> (r matches Some(e) && e.0 == num_at(t@, p + 47, 1) && e.1 == num_at(t@, p + 48, 1)),
        !has_enhancement(t@, p as int) ==> r is None,
        r matches Some(e) ==> e.0 < 10 && e.1 < 10,
{
    proof {
        crate::geo::lemma_pow10_small();
    }
    if n - p < 50 {
        return None;
    }
    if t.get_char(p + 44) != ' ' || t.get_char(p + 45) != '!' || t.get_char(p + 46) != 'W' || t.get_char(p + 49) != '!' {
        return None;
    }
    let x = match read_digits(t, n, p + 47, 1) { Some(v) => v, None => return None };
    let y = match read_digits(t, n, p + 48, 1) { Some(v) => v, None => {
        proof {
            assert(!digits_at(t@, p + 48, 1));
            assert(!digits_at(t@, p + 47, 2));
        }
        return None;
    } };
    proof {
        assert(digits_at(t@, p + 47, 2));
    }
    Some((x, y))
}

/// Reads a position report from one line of the feed; `None` for any line that
/// is not one.
pub fn parse(line: &str) -> (r: Option<APRSPosition>)
    ensures
        is_report(line@) ==> (r matches Some(x) && report_spec(line@, x)),
        !is_report(line@) ==> r is None,
        r matches Some(x) ==> x.seconds_of_day < 86400 && -100000000 <= x.latitude <= 100000000
            && -100000000 <= x.longitude <= 100000000,
{
    let n = line.unicode_len();
    if !id_ok(line, n) {
        return None;
    }
    let mut p: usize = 9;
    while p < n && line.get_char(p) != ':'
        invariant
            n == line@.len(),
            9 <= p <= n,
            non_colon_run(line@, p as int) == non_colon_run(line@, 9),
        decreases n - p,
    {
        p = p + 1;
    }
    if p == 9 || p >= n {
        return None;
    }
    let b = match read_body(line, n, p) {
        Some(b) => b,
        None => return None,
    };
    let (x, y) = match read_enhancement(line, n, p) {
        Some(e) => e,
        None => (0u64, 0u64),
    };
    let lat: i64 = (b.lat_deg * 60000 + b.lat_min * 1000 + b.lat_hundredths * 10 + x) as i64;
    let lon: i64 = (b.lon_deg * 60000 + b.lon_min * 1000 + b.lon_hundredths * 10 + y) as i64;
    let id = line.substring_char(0, 9).to_owned();
    assert(line@.subrange(0, 9) =~= line@.take(9));
    Some(APRSPosition {
        id,
        seconds_of_day: (b.hh * 3600 + b.mm * 60 + b.ss) as u32,
        latitude: if b.north { lat } else { -lat },
        longitude: if b.east { lon } else { -lon },
        course: b.course as i32,
        altitude_feet: b.altitude as u32,
    })
}

/// An angle in 1/60000 of a degree, in microdegrees rounded to the nearest.
pub open spec fn micro_of_units(u: int) -> int {
    if u >= 0 {
        (100 * u + 3) / 6
    } else {
        -((-100 * u + 3) / 6)
    }
}

fn micro_of(u: i64) -> (r: i32)
    requires
        -100000000 <= u <= 100000000,
    ensures
        r == micro_of_units(u as int),
{
    let a: i64 = if u >= 0 { u } else { -u };
    assert(0 <= 100 * a + 3 <= 10000000003) by (nonlinear_arith)
        requires 0 <= a <= 100000000;
    let m: i64 = (100 * a + 3) / 6;
    if u >= 0 {
        m as i32
    } else {
        (-m) as i32
    }
}

impl APRSPosition {
    /// The report as the gateway takes it, received at `now`: its instant
    /// reconstructed from the time of day, its coordinates in microdegrees, its
    /// altitude in whole meters. The coordinates as single-precision floats come
    /// with it.
    pub fn to_position(&self, now: i64, longitude_f32: u32, latitude_f32: u32) -> (r: Position)
        requires
            self.seconds_of_day < 86400,
            -100000000 <= self.latitude <= 100000000,
            -100000000 <= self.longitude <= 100000000,
            i64::MIN + 2 * DAY_SECONDS <= now <= i64::MAX - 2 * DAY_SECONDS,
        ensures
            r.id@ == self.id@,
            r.time == time_to_datetime_spec(now as int, self.seconds_of_day as int),
            r.longitude == micro_of_units(self.longitude as int),
            r.latitude == micro_of_units(self.latitude as int),
            r.altitude == self.altitude_feet.feet_to_meter_spec(),
            r.course == self.course,
            r.longitude_f32 == longitude_f32,
            r.latitude_f32 == latitude_f32,
    {
        Position {
            id: self.id.clone(),
            time: time_to_datetime(now, self.seconds_of_day),
            longitude: micro_of(self.longitude),
            latitude: micro_of(self.latitude),
            altitude: self.altitude_feet.feet_to_meter() as i32,
            course: self.course,
            longitude_f32,
            latitude_f32,
        }
    }
}

} // verus!
