use vstd::prelude::*;

use crate::geo::{dec_value, is_digit};
use crate::text::{push_char, push_str};

verus! {

/// One device of the OGN device database, its fields as the download gives them.
pub struct OGNDDBRecord {
    pub device_type: String,
    pub device_id: String,
    pub aircraft_model: String,
    pub aircraft_type: String,
    pub registration: String,
    pub cn: String,
    pub tracking: String,
    pub identified: String,
}

/// What the gateway publishes of a device: optional texts and its category
/// (1 gliders, 2 planes, 3 ultralights, 4 helicopters, 5 drones, 6 others).
pub struct DeviceInfo {
    pub model: Option<String>,
    pub registration: Option<String>,
    pub callsign: Option<String>,
    pub category: i16,
}

/// The feed's id of a device: its id behind `FLR`, `ICA` or `OGN` for device
/// types `F`, `I` and `O`; other types have none.
pub open spec fn ogn_id_spec(device_type: Seq<char>, device_id: Seq<char>) -> Option<Seq<char>> {
    if device_type == seq!['F'] {
        Some(seq!['F', 'L', 'R'] + device_id)
    } else if device_type == seq!['I'] {
        Some(seq!['I', 'C', 'A'] + device_id)
    } else if device_type == seq!['O'] {
        Some(seq!['O', 'G', 'N'] + device_id)
    } else {
        None
    }
}

/// Every character is a decimal digit.
pub open spec fn all_digits(s: Seq<char>) -> bool {
    forall|i: int| 0 <= i < s.len() ==> is_digit(#[trigger] s[i])
}

/// The value of a decimal integer text, optionally signed, if it fits an `i16`.
pub open spec fn i16_spec(t: Seq<char>) -> Option<int> {
    let signed = t.len() > 0 && (t[0] == '-' || t[0] == '+');
    let digits = if signed { t.skip(1) } else { t };
    let v: int = if signed && t[0] == '-' { -dec_value(digits) } else { dec_value(digits) as int };
    if digits.len() > 0 && all_digits(digits) && i16::MIN <= v <= i16::MAX {
        Some(v)
    } else {
        None
    }
}

/// The text of an optional field: none when empty.
pub open spec fn optional_spec(s: Seq<char>, r: Option<String>) -> bool {
    if s.len() == 0 {
        r is None
    } else {
        r matches Some(t) && t@ == s
    }
}

fn is_one_char(s: &String, c: char) -> (r: bool)
    ensures
        r == (s@ == seq![c]),
{
    let t = s.as_str();
    if t.unicode_len() != 1 {
        return false;
    }
    let r = t.get_char(0) == c;
    assert(r ==> s@ =~= seq![c]);
    r
}

/// Reads a decimal integer, optionally signed, that fits an `i16`.
pub fn parse_i16(t: &str) -> (r: Option<i16>)
    ensures
        match i16_spec(t@) {
            Some(v) => r == Some(v as i16),
            None => r is None,
        },
{
    let n = t.unicode_len();
    let signed = n > 0 && (t.get_char(0) == '-' || t.get_char(0) == '+');
    let neg = signed && t.get_char(0) == '-';
    let start: usize = if signed { 1 } else { 0 };
    let ghost digits = if signed { t@.skip(1) } else { t@ };
    assert(signed == (t@.len() > 0 && (t@[0] == '-' || t@[0] == '+')));
    assert(digits =~= t@.subrange(start as int, n as int));
    if start == n {
        return None;
    }
    let mut i: usize = start;
    let mut acc: i64 = 0;
    assert(t@.subrange(start as int, start as int) =~= Seq::<char>::empty());
    while i < n
        invariant
            n == t@.len(),
            start <= i <= n,
            digits == t@.subrange(start as int, n as int),
            digits == (if signed { t@.skip(1) } else { t@ }),
            signed == (t@.len() > 0 && (t@[0] == '-' || t@[0] == '+')),
            neg == (signed && t@[0] == '-'),
            forall|k: int| start <= k < i ==> is_digit(#[trigger] t@[k]),
            dec_value(t@.subrange(start as int, i as int)) <= 100000 ==> acc == dec_value(t@.subrange(start as int, i as int)),
            dec_value(t@.subrange(start as int, i as int)) > 100000 ==> 100000 < acc <= 1000009,
        decreases n - i,
    {
        let c = t.get_char(i);
        if !('0' <= c && c <= '9') {
            proof {
                let w = i - start;
                assert(digits[w] == c);
                assert(!is_digit(digits[w]));
                assert(!all_digits(digits));
            }
            return None;
        }
        let ghost sub = t@.subrange(start as int, i as int);
        assert(t@.subrange(start as int, i + 1) =~= sub.push(c));
        assert(sub.push(c).drop_last() =~= sub);
        if acc <= 100000 {
            acc = acc * 10 + (c as u32 - 48) as i64;
        }
        i = i + 1;
    }
    assert forall|k: int| 0 <= k < digits.len() implies is_digit(#[trigger] digits[k]) by {
        assert(digits[k] == t@[k + start]);
    }
    assert(all_digits(digits));
    let v: i64 = if neg { -acc } else { acc };
    if v < -32768 || v > 32767 {
        return None;
    }
    Some(v as i16)
}

fn optional(s: &String) -> (r: Option<String>)
    ensures
        optional_spec(s@, r),
{
    if s.as_str().unicode_len() == 0 {
        None
    } else {
        Some(s.clone())
    }
}

impl OGNDDBRecord {
    /// The feed's id of the device, if its type has one.
    pub fn ogn_id(&self) -> (r: Option<String>)
        ensures
            match ogn_id_spec(self.device_type@, self.device_id@) {
                Some(id) => r matches Some(s) && s@ == id,
                None => r is None,
            },
    {
        let mut s = String::new();
        if is_one_char(&self.device_type, 'F') {
            push_char(&mut s, 'F');
            push_char(&mut s, 'L');
            push_char(&mut s, 'R');
        } else if is_one_char(&self.device_type, 'I') {
            push_char(&mut s, 'I');
            push_char(&mut s, 'C');
            push_char(&mut s, 'A');
        } else if is_one_char(&self.device_type, 'O') {
            push_char(&mut s, 'O');
            push_char(&mut s, 'G');
            push_char(&mut s, 'N');
        } else {
            return None;
        }
        push_str(&mut s, self.device_id.as_str());
        assert(s@ =~= ogn_id_spec(self.device_type@, self.device_id@)->0);
        Some(s)
    }

    /// The device's entry for the published database: only devices with a feed
    /// id and a category that reads as an `i16` have one.
    pub fn device_info(&self) -> (r: Option<(String, DeviceInfo)>)
        ensures
            match (ogn_id_spec(self.device_type@, self.device_id@), i16_spec(self.aircraft_type@)) {
                (Some(id), Some(c)) => r matches Some((s, info)) && s@ == id && info.category == c
                    && optional_spec(self.aircraft_model@, info.model)
                    && optional_spec(self.registration@, info.registration)
                    && optional_spec(self.cn@, info.callsign),
                _ => r is None,
            },
    {
        let id = match self.ogn_id() {
            Some(id) => id,
            None => return None,
        };
        let category = match parse_i16(self.aircraft_type.as_str()) {
            Some(c) => c,
            None => return None,
        };
        let info = DeviceInfo {
            model: optional(&self.aircraft_model),
            registration: optional(&self.registration),
            callsign: optional(&self.cn),
            category,
        };
        Some((id, info))
    }

    /// The device's feed id if its owner asked not to follow it (`tracking` is `N`).
    pub fn ignored_id(&self) -> (r: Option<String>)
        ensures
            match ogn_id_spec(self.device_type@, self.device_id@) {
                Some(id) => if self.tracking@ == seq!['N'] {
                    r matches Some(s) && s@ == id
                } else {
                    r is None
                },
                None => r is None,
            },
    {
        let id = match self.ogn_id() {
            Some(id) => id,
            None => return None,
        };
        if is_one_char(&self.tracking, 'N') {
            Some(id)
        } else {
            None
        }
    }
}

} // verus!
