use vstd::prelude::*;

use crate::codec::{decode_spec, encode_spec, lemma_record_round_trip, RedisOGNRecord, RECORD_SIZE};
use crate::geo::{dec_value, digit_run};
use crate::text::{int_text, push_char, push_int, push_str};
use crate::time_buckets::{bucket_time_of, lemma_bucket_time, to_bucket_time, BUCKET_SECONDS, DAY_SECONDS};

verus! {

/// A position kept in the history: its instant in UNIX seconds, the coordinates
/// as single-precision float bit patterns, and the altitude in whole meters.
#[derive(Clone, Copy, Debug, PartialEq, Eq, Structural)]
pub struct OGNPosition {
    pub time: i64,
    pub longitude: u32,
    pub latitude: u32,
    pub altitude: i16,
}

/// The record of a position within its hour's bucket.
pub open spec fn record_spec(p: OGNPosition) -> RedisOGNRecord {
    RedisOGNRecord {
        seconds: (p.time - bucket_time_of(p.time as int)) as u16,
        altitude: p.altitude,
        longitude: p.longitude,
        latitude: p.latitude,
    }
}

/// The position that a record of the bucket at `bucket_time` stands for.
pub open spec fn position_spec(bucket_time: int, r: RedisOGNRecord) -> OGNPosition {
    OGNPosition {
        time: (bucket_time + r.seconds) as i64,
        longitude: r.longitude,
        latitude: r.latitude,
        altitude: r.altitude,
    }
}

pub open spec fn time_in_range(t: int) -> bool {
    i64::MIN + BUCKET_SECONDS <= t
}

/// The record of a position within its hour's bucket.
pub fn record_of(p: &OGNPosition) -> (r: RedisOGNRecord)
    requires
        time_in_range(p.time as int),
    ensures
        r == record_spec(*p),
{
    let b = to_bucket_time(p.time);
    proof {
        lemma_bucket_time(p.time as int);
    }
    RedisOGNRecord {
        seconds: (p.time - b) as u16,
        altitude: p.altitude,
        longitude: p.longitude,
        latitude: p.latitude,
    }
}

/// The key of a device's bucket: `ogn:<id>:<bucket_time>`.
pub open spec fn bucket_key_spec(id: Seq<char>, bucket_time: int) -> Seq<char> {
    seq!['o', 'g', 'n', ':'] + id + seq![':'] + int_text(bucket_time)
}

/// The store key of the bucket of device `id` at `bucket_time`.
pub fn bucket_key(id: &str, bucket_time: i64) -> (r: String)
    ensures
        r@ == bucket_key_spec(id@, bucket_time as int),
{
    let mut s = String::new();
    push_char(&mut s, 'o');
    push_char(&mut s, 'g');
    push_char(&mut s, 'n');
    push_char(&mut s, ':');
    push_str(&mut s, id);
    push_char(&mut s, ':');
    push_int(&mut s, bucket_time);
    assert(s@ =~= bucket_key_spec(id@, bucket_time as int));
    s
}

/// Whether an entry of a batch falls in the bucket of device `id` at `bucket_time`.
pub open spec fn in_bucket(e: (String, OGNPosition), id: Seq<char>, bucket_time: int) -> bool {
    e.0@ == id && bucket_time_of(e.1.time as int) == bucket_time
}

/// The bytes that a batch appends to one bucket: the records of the entries
/// that fall in it, in the order of the batch.
pub open spec fn bucket_bytes(batch: Seq<(String, OGNPosition)>, id: Seq<char>, bucket_time: int) -> Seq<u8>
    decreases batch.len(),
{
    if batch.len() == 0 {
        Seq::empty()
    } else {
        let before = bucket_bytes(batch.drop_last(), id, bucket_time);
        if in_bucket(batch.last(), id, bucket_time) {
            before + encode_spec(record_spec(batch.last().1))
        } else {
            before
        }
    }
}

/// How many entries of a batch fall in one bucket.
pub open spec fn bucket_entries(batch: Seq<(String, OGNPosition)>, id: Seq<char>, bucket_time: int) -> nat
    decreases batch.len(),
{
    if batch.len() == 0 {
        0
    } else {
        bucket_entries(batch.drop_last(), id, bucket_time) + if in_bucket(
            batch.last(),
            id,
            bucket_time,
        ) {
            1nat
        } else {
            0nat
        }
    }
}

/// A bucket's share of a batch is twelve bytes for each entry that falls in it.
pub proof fn lemma_bucket_bytes_len(batch: Seq<(String, OGNPosition)>, id: Seq<char>, bucket_time: int)
    ensures
        bucket_bytes(batch, id, bucket_time).len() == RECORD_SIZE * bucket_entries(batch, id, bucket_time),
    decreases batch.len(),
{
    if batch.len() > 0 {
        lemma_bucket_bytes_len(batch.drop_last(), id, bucket_time);
        lemma_record_round_trip(record_spec(batch.last().1));
    }
}

/// What one flush appends to one bucket.
pub struct BucketAppend {
    pub id: String,
    pub bucket_time: i64,
    pub records: Vec<u8>,
}

/// A batch of positions to append to the history.
pub struct AddOGNPositions {
    pub positions: Vec<(String, OGNPosition)>,
}

/// The bucket of an entry of a batch: its device and its hour.
pub open spec fn entry_bucket(e: (String, OGNPosition)) -> (Seq<char>, int) {
    (e.0@, bucket_time_of(e.1.time as int))
}

/// The buckets that a batch touches, each once, in the order in which the batch
/// first touches them.
pub open spec fn batch_buckets(batch: Seq<(String, OGNPosition)>) -> Seq<(Seq<char>, int)>
    decreases batch.len(),
{
    if batch.len() == 0 {
        Seq::empty()
    } else {
        let before = batch_buckets(batch.drop_last());
        if before.contains(entry_bucket(batch.last())) {
            before
        } else {
            before.push(entry_bucket(batch.last()))
        }
    }
}

/// `out` holds the appends of `batch`: one for each bucket that it touches, in
/// the order of `batch_buckets`, each with the records of that bucket's entries.
pub open spec fn appends_of(out: Seq<BucketAppend>, batch: Seq<(String, OGNPosition)>) -> bool {
    let keys = batch_buckets(batch);
    &&& out.len() == keys.len()
    &&& forall|j: int| 0 <= j < out.len() ==> (#[trigger] out[j]).id@ == keys[j].0 && out[j].bucket_time == keys[j].1
        && out[j].records@ == bucket_bytes(batch, keys[j].0, keys[j].1)
}

/// The buckets of a batch are distinct, and every entry falls in one of them.
pub proof fn lemma_batch_buckets(batch: Seq<(String, OGNPosition)>)
    ensures
        batch_buckets(batch).no_duplicates(),
        forall|q: int| 0 <= q < batch.len() ==> batch_buckets(batch).contains(entry_bucket(#[trigger] batch[q])),
    decreases batch.len(),
{
    if batch.len() > 0 {
        let d = batch.drop_last();
        lemma_batch_buckets(d);
        assert forall|q: int| 0 <= q < batch.len() implies batch_buckets(batch).contains(entry_bucket(#[trigger] batch[q])) by {
            if q < d.len() {
                assert(d[q] == batch[q]);
                let w = choose|w: int| 0 <= w < batch_buckets(d).len() && batch_buckets(d)[w] == entry_bucket(d[q]);
                if !batch_buckets(d).contains(entry_bucket(batch.last())) {
                    assert(batch_buckets(batch)[w] == batch_buckets(d)[w]);
                }
            } else {
                if !batch_buckets(d).contains(entry_bucket(batch.last())) {
                    assert(batch_buckets(batch)[batch_buckets(d).len() as int] == entry_bucket(batch.last()));
                }
            }
        }
    }
}

impl AddOGNPositions {
    /// The appends of the batch, one for each bucket that it touches.
    pub fn appends(&self) -> (r: Vec<BucketAppend>)
        requires
            forall|i: int| 0 <= i < self.positions@.len() ==> time_in_range(#[trigger] self.positions@[i].1.time as int),
        ensures
            appends_of(r@, self.positions@),
    {
        let batch = &self.positions;
        let mut out: Vec<BucketAppend> = Vec::new();
        let mut i: usize = 0;
        assert(batch@.take(0) =~= Seq::<(String, OGNPosition)>::empty());
        while i < batch.len()
            invariant
                0 <= i <= batch@.len(),
                forall|q: int| 0 <= q < batch@.len() ==> time_in_range(#[trigger] batch@[q].1.time as int),
                appends_of(out@, batch@.take(i as int)),
            decreases batch@.len() - i,
        {
            let entry = &batch[i];
            assert(batch@.take(i + 1) =~= batch@.take(i as int).push(*entry));
            add_entry(&mut out, Ghost(batch@.take(i as int)), entry);
            i = i + 1;
        }
        assert(batch@.take(batch@.len() as int) =~= batch@);
        out
    }
}

/// The index of the append of one bucket, if `out` has it.
fn find_append(out: &Vec<BucketAppend>, id: &String, bucket_time: i64) -> (r: Option<usize>)
    ensures
        match r {
            Some(j) => j < out@.len() && out@[j as int].id@ == id@ && out@[j as int].bucket_time == bucket_time,
            None => forall|k: int| 0 <= k < out@.len() ==> !(#[trigger] out@[k].id@ == id@ && out@[k].bucket_time == bucket_time),
        },
{
    let mut j: usize = 0;
    while j < out.len()
        invariant
            0 <= j <= out@.len(),
            forall|k: int| 0 <= k < j ==> !(#[trigger] out@[k].id@ == id@ && out@[k].bucket_time == bucket_time),
        decreases out@.len() - j,
    {
        if out[j].id == *id && out[j].bucket_time == bucket_time {
            return Some(j);
        }
        j = j + 1;
    }
    None
}

/// Adds the record of one more entry of a batch to its bucket's append.
fn add_entry(out: &mut Vec<BucketAppend>, prev: Ghost<Seq<(String, OGNPosition)>>, entry: &(String, OGNPosition))
    requires
        appends_of(old(out)@, prev@),
        time_in_range(entry.1.time as int),
    ensures
        appends_of(final(out)@, prev@.push(*entry)),
{
    let ghost next = prev@.push(*entry);
    let ghost old_out = out@;
    let ghost keys = batch_buckets(prev@);
    let b = to_bucket_time(entry.1.time);
    let rec = record_of(&entry.1);
    let bytes = rec.encode();
    proof {
        assert(next.drop_last() =~= prev@);
        lemma_batch_buckets(prev@);
    }
    match find_append(out, &entry.0, b) {
        Some(j) => {
            let mut g = out.remove(j);
            let mut extra = bytes;
            g.records.append(&mut extra);
            out.insert(j, g);
            proof {
                assert(keys[j as int] == entry_bucket(*entry));
                assert(keys.contains(entry_bucket(*entry)));
                assert(batch_buckets(next) == keys);
                assert forall|k: int| 0 <= k < out@.len() implies (#[trigger] out@[k]).id@ == keys[k].0
                    && out@[k].bucket_time == keys[k].1 && out@[k].records@ == bucket_bytes(next, keys[k].0, keys[k].1) by {
                    if k != j {
                        assert(out@[k] == old_out[k]);
                        assert(keys[k] != keys[j as int]);
                    }
                }
            }
        },
        None => {
            let g = BucketAppend { id: entry.0.clone(), bucket_time: b, records: bytes };
            proof {
                assert(!keys.contains(entry_bucket(*entry))) by {
                    if keys.contains(entry_bucket(*entry)) {
                        let w = choose|w: int| 0 <= w < keys.len() && keys[w] == entry_bucket(*entry);
                        assert(old_out[w].id@ == entry.0@ && old_out[w].bucket_time == b);
                    }
                }
                assert forall|q: int| 0 <= q < prev@.len() implies !in_bucket(#[trigger] prev@[q], entry.0@, b as int) by {
                    assert(keys.contains(entry_bucket(prev@[q])));
                }
                lemma_no_entries(prev@, entry.0@, b as int);
            }
            out.push(g);
            proof {
                assert(batch_buckets(next) == keys.push(entry_bucket(*entry)));
                assert forall|k: int| 0 <= k < out@.len() implies (#[trigger] out@[k]).id@ == batch_buckets(next)[k].0
                    && out@[k].bucket_time == batch_buckets(next)[k].1 && out@[k].records@ == bucket_bytes(next, batch_buckets(next)[k].0, batch_buckets(next)[k].1) by {
                    if k < old_out.len() {
                        assert(out@[k] == old_out[k]);
                        assert(keys[k] != entry_bucket(*entry));
                    }
                }
            }
        },
    }
}

/// A bucket that no entry of a batch falls in gets no bytes from it.
proof fn lemma_no_entries(batch: Seq<(String, OGNPosition)>, id: Seq<char>, bucket_time: int)
    requires
        forall|q: int| 0 <= q < batch.len() ==> !in_bucket(#[trigger] batch[q], id, bucket_time),
    ensures
        bucket_bytes(batch, id, bucket_time) == Seq::<u8>::empty(),
    decreases batch.len(),
{
    if batch.len() > 0 {
        let d = batch.drop_last();
        assert forall|q: int| 0 <= q < d.len() implies !in_bucket(#[trigger] d[q], id, bucket_time) by {
            assert(d[q] == batch[q]);
        }
        lemma_no_entries(d, id, bucket_time);
    }
}

/// The records that a bucket's value holds, twelve bytes each.
pub open spec fn bucket_records(value: Seq<u8>) -> Seq<RedisOGNRecord> {
    Seq::new(
        value.len() / 12,
        |i: int| decode_spec(value.subrange(12 * i, 12 * i + 12)),
    )
}

/// The records that remain when, of the records that share a second, only the
/// first is kept.
pub open spec fn first_per_second(recs: Seq<RedisOGNRecord>) -> Seq<RedisOGNRecord>
    decreases recs.len(),
{
    if recs.len() == 0 {
        Seq::empty()
    } else {
        let before = first_per_second(recs.drop_last());
        if exists|k: int| 0 <= k < recs.len() - 1 && (#[trigger] recs[k]).seconds == recs.last().seconds {
            before
        } else {
            before.push(recs.last())
        }
    }
}

/// The positions that a bucket's value holds, duplicates of a second dropped.
pub open spec fn bucket_positions(bucket_time: int, value: Seq<u8>) -> Seq<OGNPosition> {
    first_per_second(bucket_records(value)).map_values(|r: RedisOGNRecord| position_spec(bucket_time, r))
}

/// The positions that the value of the bucket at `bucket_time` holds, in the
/// order stored, only the first of those that share a second kept; `None` when
/// the value ends in a truncated record.
pub fn records_for_bucket(bucket_time: i64, value: &Vec<u8>) -> (r: Option<Vec<OGNPosition>>)
    requires
        bucket_time <= i64::MAX - 65536,
    ensures
        value@.len() % 12 != 0 ==> r is None,
        value@.len() % 12 == 0 ==> (r matches Some(v) && v@ == bucket_positions(bucket_time as int, value@)),
{
    if value.len() % RECORD_SIZE != 0 {
        return None;
    }
    let n: usize = value.len() / RECORD_SIZE;
    let ghost recs = bucket_records(value@);
    let mut all: Vec<RedisOGNRecord> = Vec::new();
    let mut out: Vec<OGNPosition> = Vec::new();
    let mut i: usize = 0;
    assert(recs.take(0) =~= Seq::<RedisOGNRecord>::empty());
    while i < n
        invariant
            n == value@.len() / 12,
            0 <= i <= n,
            all@ == recs.take(i as int),
            recs == bucket_records(value@),
            bucket_time <= i64::MAX - 65536,
            out@ == first_per_second(all@).map_values(|r: RedisOGNRecord| position_spec(bucket_time as int, r)),
        decreases n - i,
    {
        let len = value.len();
        assert(12 * i + 12 <= len) by (nonlinear_arith)
            requires i < n, n == len / 12;
        let rec = RedisOGNRecord::decode_at(value.as_slice(), 12 * i);
        let seen = second_seen(&all, rec.seconds);
        let ghost before = all@;
        all.push(rec);
        assert(all@ =~= recs.take(i + 1));
        assert(all@.drop_last() =~= before);
        if !seen {
            let pos = OGNPosition {
                time: bucket_time + rec.seconds as i64,
                longitude: rec.longitude,
                latitude: rec.latitude,
                altitude: rec.altitude,
            };
            assert(!exists|q: int| 0 <= q < all@.len() - 1 && (#[trigger] all@[q]).seconds == all@.last().seconds) by {
                assert forall|q: int| 0 <= q < all@.len() - 1 implies (#[trigger] all@[q]).seconds != all@.last().seconds by {
                    assert(all@[q] == before[q]);
                }
            }
            out.push(pos);
            assert(out@ =~= first_per_second(all@).map_values(|r: RedisOGNRecord| position_spec(bucket_time as int, r)));
        } else {
            let ghost k = choose|k: int| 0 <= k < before.len() && (#[trigger] before[k]).seconds == rec.seconds;
            assert(all@[k] == before[k]);
            assert(first_per_second(all@) == first_per_second(before));
        }
        i = i + 1;
    }
    assert(recs.take(n as int) =~= recs);
    Some(out)
}

/// Whether a record of `all` is at second `seconds`.
fn second_seen(all: &Vec<RedisOGNRecord>, seconds: u16) -> (r: bool)
    ensures
        r == exists|k: int| 0 <= k < all@.len() && (#[trigger] all@[k]).seconds == seconds,
{
    let mut k: usize = 0;
    while k < all.len()
        invariant
            0 <= k <= all@.len(),
            forall|q: int| 0 <= q < k ==> (#[trigger] all@[q]).seconds != seconds,
        decreases all@.len() - k,
    {
        if all[k].seconds == seconds {
            return true;
        }
        k = k + 1;
    }
    false
}

/// The end of the run of characters other than `:` that starts at `i`.
pub open spec fn non_colon_run(t: Seq<char>, i: int) -> int
    decreases t.len() - i,
{
    if 0 <= i < t.len() && t[i] != ':' {
        non_colon_run(t, i + 1)
    } else {
        i
    }
}

/// The bucket time that a key `ogn:<id>:<digits>` names: `<id>` holds at least
/// one character and no `:`, the digits are read as far as they go.
pub open spec fn key_bucket_time(k: Seq<char>) -> Option<nat> {
    let p = non_colon_run(k, 4);
    if k.len() >= 4 && k.take(4) == seq!['o', 'g', 'n', ':'] && p > 4 && p < k.len() && k[p] == ':'
        && digit_run(k, p + 1) > p + 1 {
        Some(dec_value(k.subrange(p + 1, digit_run(k, p + 1))))
    } else {
        None
    }
}

/// Whether a store key names a bucket that started a day or more before `now`.
pub open spec fn is_outdated_spec(k: Seq<char>, now: int) -> bool {
    match key_bucket_time(k) {
        Some(b) => b < now - 86400,
        None => false,
    }
}

/// The sum of some byte lengths.
pub open spec fn total_length(lengths: Seq<u64>) -> int
    decreases lengths.len(),
{
    if lengths.len() == 0 {
        0
    } else {
        total_length(lengths.drop_last()) + lengths.last()
    }
}

impl CountOGNPositions {
    /// The number of whole records that buckets of the given byte lengths hold
    /// in all; the sum stops at `u64::MAX`.
    pub fn records_in(lengths: &Vec<u64>) -> (r: u64)
        ensures
            total_length(lengths@) <= u64::MAX ==> r == total_length(lengths@) / 12,
            total_length(lengths@) > u64::MAX ==> r == u64::MAX / 12,
    {
        let mut sum: u64 = 0;
        let mut over: bool = false;
        let mut i: usize = 0;
        assert(lengths@.take(0) =~= Seq::<u64>::empty());
        while i < lengths.len()
            invariant
                0 <= i <= lengths@.len(),
                !over ==> sum == total_length(lengths@.take(i as int)),
                over ==> total_length(lengths@.take(i as int)) > u64::MAX,
            decreases lengths@.len() - i,
        {
            let ghost t = lengths@.take(i as int);
            assert(lengths@.take(i + 1).drop_last() =~= t);
            proof {
                lemma_total_length_nonneg(t);
            }
            if !over {
                if sum > u64::MAX - lengths[i] {
                    over = true;
                } else {
                    sum = sum + lengths[i];
                }
            }
            i = i + 1;
        }
        assert(lengths@.take(lengths@.len() as int) =~= lengths@);
        if over {
            u64::MAX / 12
        } else {
            sum / 12
        }
    }
}

proof fn lemma_total_length_nonneg(lengths: Seq<u64>)
    ensures
        total_length(lengths) >= 0,
    decreases lengths.len(),
{
    if lengths.len() > 0 {
        lemma_total_length_nonneg(lengths.drop_last());
    }
}

/// Counting the records of the history.
pub struct CountOGNPositions;

/// Dropping the buckets of the history that are older than a day.
pub struct DropOldOGNPositions;

impl DropOldOGNPositions {
    /// Whether `key` names a bucket whose hour began more than a day before `now`:
    /// such buckets are dropped from the history.
    pub fn is_outdated(key: &str, now: i64) -> (r: bool)
        requires
            now >= i64::MIN + DAY_SECONDS,
        ensures
            r == is_outdated_spec(key@, now as int),
    {
        let n = key.unicode_len();
        if n < 4 {
            return false;
        }
        let prefix_ok = key.get_char(0) == 'o' && key.get_char(1) == 'g' && key.get_char(2) == 'n'
            && key.get_char(3) == ':';
        assert(prefix_ok <==> key@.take(4) == seq!['o', 'g', 'n', ':']) by {
            if key@.take(4) == seq!['o', 'g', 'n', ':'] {
                assert(key@.take(4)[0] == 'o' && key@.take(4)[1] == 'g' && key@.take(4)[2] == 'n' && key@.take(4)[3] == ':');
            }
            if prefix_ok {
                assert(key@.take(4) =~= seq!['o', 'g', 'n', ':']);
            }
        }
        if !prefix_ok {
            return false;
        }
        let mut p: usize = 4;
        while p < n && key.get_char(p) != ':'
            invariant
                n == key@.len(),
                4 <= p <= n,
                non_colon_run(key@, p as int) == non_colon_run(key@, 4),
            decreases n - p,
        {
            p = p + 1;
        }
        if p == 4 || p >= n {
            return false;
        }
        let cutoff: i64 = now - DAY_SECONDS;
        let mut j: usize = p + 1;
        let mut acc: i64 = 0;
        let mut big: bool = false;
        assert(key@.subrange(p + 1, p + 1) =~= Seq::<char>::empty());
        while j < n && '0' <= key.get_char(j) && key.get_char(j) <= '9'
            invariant
                n == key@.len(),
                p + 1 <= j <= n,
                digit_run(key@, j as int) == digit_run(key@, p + 1),
                0 <= acc,
                !big ==> acc == dec_value(key@.subrange(p + 1, j as int)),
                big ==> dec_value(key@.subrange(p + 1, j as int)) > i64::MAX,
            decreases n - j,
        {
            let c = key.get_char(j);
            let d: i64 = (c as u32 - 48) as i64;
            let ghost sub = key@.subrange(p + 1, j as int);
            assert(key@.subrange(p + 1, j + 1) =~= sub.push(c));
            assert(sub.push(c).drop_last() =~= sub);
            if !big {
                if acc > (i64::MAX - d) / 10 {
                    big = true;
                } else {
                    acc = acc * 10 + d;
                }
            }
            j = j + 1;
        }
        if j == p + 1 {
            return false;
        }
        !big && acc < cutoff
    }
}

/// The positions of `s` whose instant lies in `[from, to]`, in order.
pub open spec fn in_range(s: Seq<OGNPosition>, from: int, to: int) -> Seq<OGNPosition>
    decreases s.len(),
{
    if s.len() == 0 {
        s
    } else {
        let before = in_range(s.drop_last(), from, to);
        if from <= s.last().time <= to {
            before.push(s.last())
        } else {
            before
        }
    }
}

/// The positions are in order of time.
pub open spec fn sorted_by_time(s: Seq<OGNPosition>) -> bool {
    forall|i: int, j: int| 0 <= i < j < s.len() ==> (#[trigger] s[i]).time <= (#[trigger] s[j]).time
}

/// The positions read from a device's buckets that lie in `[from, to]`, in
/// order of time.
pub fn records_in_range(from: i64, to: i64, positions: &Vec<OGNPosition>) -> (r: Vec<OGNPosition>)
    ensures
        sorted_by_time(r@),
        r@.to_multiset() == in_range(positions@, from as int, to as int).to_multiset(),
{
    let mut out: Vec<OGNPosition> = Vec::new();
    let mut i: usize = 0;
    assert(positions@.take(0) =~= Seq::<OGNPosition>::empty());
    while i < positions.len()
        invariant
            0 <= i <= positions@.len(),
            sorted_by_time(out@),
            out@.to_multiset() == in_range(positions@.take(i as int), from as int, to as int).to_multiset(),
        decreases positions@.len() - i,
    {
        let e = positions[i];
        assert(positions@.take(i + 1).drop_last() =~= positions@.take(i as int));
        if from <= e.time && e.time <= to {
            let mut k: usize = 0;
            while k < out.len() && out[k].time <= e.time
                invariant
                    0 <= k <= out@.len(),
                    forall|j: int| 0 <= j < k ==> (#[trigger] out@[j]).time <= e.time,
                decreases out@.len() - k,
            {
                k = k + 1;
            }
            let ghost before = out@;
            out.insert(k, e);
            assert(sorted_by_time(out@)) by {
                assert forall|a: int, b: int| 0 <= a < b < out@.len() implies (#[trigger] out@[a]).time <= (#[trigger] out@[b]).time by {
                    if b < k {
                        assert(out@[a] == before[a] && out@[b] == before[b]);
                    } else if b == k {
                        assert(out@[a] == before[a]);
                    } else if a == k {
                        assert(out@[b] == before[b - 1]);
                        assert(before[k as int].time > e.time);
                        if b - 1 > k {
                            assert(before[k as int].time <= before[b - 1].time);
                        }
                    } else if a < k {
                        assert(out@[a] == before[a] && out@[b] == before[b - 1]);
                    } else {
                        assert(out@[a] == before[a - 1] && out@[b] == before[b - 1]);
                    }
                }
            }
            let ghost prev = in_range(positions@.take(i as int), from as int, to as int);
            assert(in_range(positions@.take(i + 1), from as int, to as int) == prev.push(e));
            assert(out@ == before.insert(k as int, e));
            proof {
                vstd::seq_lib::to_multiset_insert(before, k as int, e);
                vstd::seq_lib::to_multiset_build(prev, e);
            }
        } else {
            assert(in_range(positions@.take(i + 1), from as int, to as int) == in_range(positions@.take(i as int), from as int, to as int));
        }
        i = i + 1;
    }
    assert(positions@.take(positions@.len() as int) =~= positions@);
    out
}

/// A request for the positions of some devices in a window of time.
pub struct ReadOGNPositions {
    pub ids: Vec<String>,
    pub after: Option<i64>,
    pub before: Option<i64>,
}

impl ReadOGNPositions {
    /// The window of the request at `now`: it starts a day before `now` and
    /// ends at `now` unless the request says otherwise.
    pub fn window(&self, now: i64) -> (r: (i64, i64))
        requires
            now >= i64::MIN + DAY_SECONDS,
        ensures
            r.0 == (match self.after {
                Some(a) => a as int,
                None => now - 86400,
            }),
            r.1 == (match self.before {
                Some(b) => b as int,
                None => now as int,
            }),
    {
        let after = match self.after {
            Some(a) => a,
            None => now - DAY_SECONDS,
        };
        let before = match self.before {
            Some(b) => b,
            None => now,
        };
        (after, before)
    }
}

/// Two positions of one device in one hour, flushed together, make one append
/// to their bucket: their two records in order, 24 bytes.
pub proof fn lemma_pair_appends(
    out: Seq<BucketAppend>,
    batch: Seq<(String, OGNPosition)>,
    id: Seq<char>,
    bucket_time: int,
)
    requires
        appends_of(out, batch),
        batch.len() == 2,
        in_bucket(batch[0], id, bucket_time),
        in_bucket(batch[1], id, bucket_time),
    ensures
        out.len() == 1,
        out[0].id@ == id,
        out[0].bucket_time == bucket_time,
        out[0].records@ == encode_spec(record_spec(batch[0].1)) + encode_spec(record_spec(batch[1].1)),
        out[0].records@.len() == 24,
{
    let first = batch.drop_last();
    assert(first.drop_last() =~= Seq::<(String, OGNPosition)>::empty());
    assert(first.last() == batch[0]);
    assert(batch.last() == batch[1]);
    assert(entry_bucket(batch[0]) == (id, bucket_time));
    assert(entry_bucket(batch[1]) == (id, bucket_time));
    assert(batch_buckets(first.drop_last()) == Seq::<(Seq<char>, int)>::empty());
    assert(!Seq::<(Seq<char>, int)>::empty().contains((id, bucket_time)));
    assert(batch_buckets(first) =~= seq![(id, bucket_time)]);
    assert(batch_buckets(first).contains((id, bucket_time))) by {
        assert(batch_buckets(first)[0] == (id, bucket_time));
    }
    assert(batch_buckets(batch) == seq![(id, bucket_time)]);
    assert(bucket_bytes(first.drop_last(), id, bucket_time) == Seq::<u8>::empty());
    assert(bucket_bytes(first, id, bucket_time) =~= encode_spec(record_spec(batch[0].1)));
    lemma_record_round_trip(record_spec(batch[0].1));
    lemma_record_round_trip(record_spec(batch[1].1));
    assert(out[0].id@ == id && out[0].bucket_time == bucket_time);
}

/// A stored position reads back from its bucket as itself, bit for bit.
pub proof fn lemma_position_round_trip(p: OGNPosition)
    ensures
        bucket_positions(bucket_time_of(p.time as int), encode_spec(record_spec(p))) == seq![p],
{
    let r = record_spec(p);
    let b = encode_spec(r);
    let bt = bucket_time_of(p.time as int);
    lemma_record_round_trip(r);
    lemma_bucket_time(p.time as int);
    assert(b.subrange(0, 12) =~= b);
    let recs = bucket_records(b);
    assert(recs =~= seq![r]);
    assert(recs.drop_last() =~= Seq::<RedisOGNRecord>::empty());
    assert(first_per_second(recs.drop_last()) == Seq::<RedisOGNRecord>::empty());
    assert(recs.last() == r);
    assert(first_per_second(recs) =~= Seq::<RedisOGNRecord>::empty().push(r));
    assert(r.seconds == p.time - bt);
    assert(position_spec(bt, r) == p);
    assert(first_per_second(recs).map_values(|x: RedisOGNRecord| position_spec(bt, x)) =~= seq![p]);
}

} // verus!
