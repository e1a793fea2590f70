use vstd::prelude::*;

verus! {

/// Size of one stored record, in bytes.
pub const RECORD_SIZE: usize = 12;

/// One position as the history store keeps it: the second within the bucket's
/// hour, the altitude in whole meters, and the two coordinates as the bit
/// patterns of single-precision floats.
#[derive(Clone, Copy, Debug, PartialEq, Eq, Structural)]
pub struct RedisOGNRecord {
    pub seconds: u16,
    pub altitude: i16,
    pub longitude: u32,
    pub latitude: u32,
}

pub open spec fn u16_bytes(x: u16) -> Seq<u8> {
    seq![x as u8, (x >> 8u16) as u8]
}

pub open spec fn u32_bytes(x: u32) -> Seq<u8> {
    seq![x as u8, (x >> 8u32) as u8, (x >> 16u32) as u8, (x >> 24u32) as u8]
}

pub open spec fn u16_from(b0: u8, b1: u8) -> u16 {
    (b0 as u16) | ((b1 as u16) << 8u16)
}

pub open spec fn u32_from(b0: u8, b1: u8, b2: u8, b3: u8) -> u32 {
    (b0 as u32) | ((b1 as u32) << 8u32) | ((b2 as u32) << 16u32) | ((b3 as u32) << 24u32)
}

/// The record's bytes: its fields in order, each little-endian.
pub open spec fn encode_spec(r: RedisOGNRecord) -> Seq<u8> {
    u16_bytes(r.seconds) + u16_bytes(r.altitude as u16) + u32_bytes(r.longitude) + u32_bytes(
        r.latitude,
    )
}

/// The record that twelve bytes hold.
pub open spec fn decode_spec(b: Seq<u8>) -> RedisOGNRecord {
    RedisOGNRecord {
        seconds: u16_from(b[0], b[1]),
        altitude: u16_from(b[2], b[3]) as i16,
        longitude: u32_from(b[4], b[5], b[6], b[7]),
        latitude: u32_from(b[8], b[9], b[10], b[11]),
    }
}

proof fn lemma_u16_round_trip(x: u16)
    ensures
        u16_from(x as u8, (x >> 8u16) as u8) == x,
{
    assert(((x as u8) as u16) | ((((x >> 8u16) as u8) as u16) << 8u16) == x) by (bit_vector);
}

proof fn lemma_u32_round_trip(x: u32)
    ensures
        u32_from(x as u8, (x >> 8u32) as u8, (x >> 16u32) as u8, (x >> 24u32) as u8) == x,
{
    assert(((x as u8) as u32) | ((((x >> 8u32) as u8) as u32) << 8u32) | ((((x >> 16u32) as u8)
        as u32) << 16u32) | ((((x >> 24u32) as u8) as u32) << 24u32) == x) by (bit_vector);
}

proof fn lemma_i16_round_trip(a: i16)
    ensures
        ((a as u16) as i16) == a,
{
    assert(((a as u16) as i16) == a) by (bit_vector);
}

/// Decoding the bytes of a record gives the record back, bit for bit.
pub proof fn lemma_record_round_trip(r: RedisOGNRecord)
    ensures
        encode_spec(r).len() == RECORD_SIZE,
        decode_spec(encode_spec(r)) == r,
{
    let b = encode_spec(r);
    lemma_u16_round_trip(r.seconds);
    lemma_u16_round_trip(r.altitude as u16);
    lemma_i16_round_trip(r.altitude);
    lemma_u32_round_trip(r.longitude);
    lemma_u32_round_trip(r.latitude);
    assert(b[0] == r.seconds as u8 && b[1] == (r.seconds >> 8u16) as u8);
    assert(b[4] == r.longitude as u8);
    assert(b[8] == r.latitude as u8);
}

impl RedisOGNRecord {
    /// The twelve bytes of the record.
    pub fn encode(&self) -> (r: Vec<u8>)
        ensures
            r@ == encode_spec(*self),
    {
        let mut v: Vec<u8> = Vec::with_capacity(RECORD_SIZE);
        let a: u16 = self.altitude as u16;
        v.push(self.seconds as u8);
        v.push((self.seconds >> 8u16) as u8);
        v.push(a as u8);
        v.push((a >> 8u16) as u8);
        v.push(self.longitude as u8);
        v.push((self.longitude >> 8u32) as u8);
        v.push((self.longitude >> 16u32) as u8);
        v.push((self.longitude >> 24u32) as u8);
        v.push(self.latitude as u8);
        v.push((self.latitude >> 8u32) as u8);
        v.push((self.latitude >> 16u32) as u8);
        v.push((self.latitude >> 24u32) as u8);
        assert(v@ =~= encode_spec(*self));
        v
    }

    /// The record held by the twelve bytes of `b` that start at `at`.
    pub fn decode_at(b: &[u8], at: usize) -> (r: RedisOGNRecord)
        requires
            at + RECORD_SIZE <= b@.len(),
        ensures
            r == decode_spec(b@.subrange(at as int, at + RECORD_SIZE)),
    {
        let s = Ghost(b@.subrange(at as int, at + 12));
        assert(s@[0] == b@[at as int] && s@[1] == b@[at + 1] && s@[2] == b@[at + 2] && s@[3]
            == b@[at + 3]);
        assert(s@[4] == b@[at + 4] && s@[5] == b@[at + 5] && s@[6] == b@[at + 6] && s@[7] == b@[at
            + 7]);
        assert(s@[8] == b@[at + 8] && s@[9] == b@[at + 9] && s@[10] == b@[at + 10] && s@[11]
            == b@[at + 11]);
        RedisOGNRecord {
            seconds: (b[at] as u16) | ((b[at + 1] as u16) << 8u16),
            altitude: ((b[at + 2] as u16) | ((b[at + 3] as u16) << 8u16)) as i16,
            longitude: (b[at + 4] as u32) | ((b[at + 5] as u32) << 8u32) | ((b[at + 6] as u32)
                << 16u32) | ((b[at + 7] as u32) << 24u32),
            latitude: (b[at + 8] as u32) | ((b[at + 9] as u32) << 8u32) | ((b[at + 10] as u32)
                << 16u32) | ((b[at + 11] as u32) << 24u32),
        }
    }

    /// The record that `b` holds: `None` unless `b` is exactly twelve bytes long.
    pub fn decode(b: &[u8]) -> (r: Option<RedisOGNRecord>)
        ensures
            b@.len() == RECORD_SIZE ==> r == Some(decode_spec(b@)),
            b@.len() != RECORD_SIZE ==> r is None,
    {
        if b.len() != RECORD_SIZE {
            return None;
        }
        let r = Self::decode_at(b, 0);
        assert(b@.subrange(0, 12) =~= b@);
        Some(r)
    }
}

} // verus!
