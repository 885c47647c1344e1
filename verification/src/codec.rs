//! The catalog's persistence format: a self-describing binary encoding of
//! an ordered sequence of entries, chosen so that saving and loading
//! round-trips the catalog exactly.
//!
//! Layout: a 64-bit little-endian record count, then per record the id
//! length, the id bytes, the observation time, the payload length and the
//! payload bytes. Reading and writing files is the caller's business; this
//! module only turns catalogs into bytes and back.

use vstd::prelude::*;
use crate::entry::Entry;
use crate::entry::EntryModel;
use crate::entry::models;

verus! {

/// Why a byte string was rejected as a catalog image.
#[derive(Clone, Copy, Debug, PartialEq, Eq, Structural)]
pub enum CodecError {
    /// The bytes are not a complete, exact encoding of a catalog.
    Malformed,
}

/// Little-endian byte image of a 64-bit word.
pub open spec fn word_bytes(x: u64) -> Seq<u8> {
    seq![
        (x & 0xff) as u8,
        ((x >> 8) & 0xff) as u8,
        ((x >> 16) & 0xff) as u8,
        ((x >> 24) & 0xff) as u8,
        ((x >> 32) & 0xff) as u8,
        ((x >> 40) & 0xff) as u8,
        ((x >> 48) & 0xff) as u8,
        ((x >> 56) & 0xff) as u8,
    ]
}

/// The 64-bit word held little-endian in the first eight bytes of `b`.
pub open spec fn word_of_bytes(b: Seq<u8>) -> u64
    recommends
        b.len() >= 8,
{
    (b[0] as u64)
    | ((b[1] as u64) << 8)
    | ((b[2] as u64) << 16)
    | ((b[3] as u64) << 24)
    | ((b[4] as u64) << 32)
    | ((b[5] as u64) << 40)
    | ((b[6] as u64) << 48)
    | ((b[7] as u64) << 56)
}

/// Byte image of one record.
pub open spec fn entry_bytes(e: EntryModel) -> Seq<u8> {
    word_bytes(e.id.len() as u64) + e.id + word_bytes(e.observed_at)
        + word_bytes(e.payload.len() as u64) + e.payload
}

/// Byte image of a sequence of records, in order.
pub open spec fn entries_bytes(s: Seq<EntryModel>) -> Seq<u8>
    decreases s.len(),
{
    if s.len() == 0 {
        Seq::empty()
    } else {
        entry_bytes(s[0]) + entries_bytes(s.skip(1))
    }
}

/// Byte image of a whole catalog.
pub open spec fn catalog_bytes(s: Seq<EntryModel>) -> Seq<u8> {
    word_bytes(s.len() as u64) + entries_bytes(s)
}

/// One record read from the front of `b`, with the bytes that follow it;
/// `None` when `b` does not start with a complete record.
pub open spec fn parse_entry(b: Seq<u8>) -> Option<(EntryModel, Seq<u8>)> {
    if b.len() < 8 {
        None
    } else {
        let id_len = word_of_bytes(b) as int;
        let r1 = b.skip(8);
        if r1.len() < id_len {
            None
        } else {
            let id = r1.take(id_len);
            let r2 = r1.skip(id_len);
            if r2.len() < 8 {
                None
            } else {
                let ts = word_of_bytes(r2);
                let r3 = r2.skip(8);
                if r3.len() < 8 {
                    None
                } else {
                    let pay_len = word_of_bytes(r3) as int;
                    let r4 = r3.skip(8);
                    if r4.len() < pay_len {
                        None
                    } else {
                        Some(
                            (
                                EntryModel { id, observed_at: ts, payload: r4.take(pay_len) },
                                r4.skip(pay_len),
                            ),
                        )
                    }
                }
            }
        }
    }
}

/// `n` records read from the front of `b`, with the bytes that follow.
pub open spec fn parse_entries(b: Seq<u8>, n: nat) -> Option<(Seq<EntryModel>, Seq<u8>)>
    decreases n,
{
    if n == 0 {
        Some((Seq::empty(), b))
    } else {
        match parse_entry(b) {
            None => None,
            Some(p) => match parse_entries(p.1, (n - 1) as nat) {
                None => None,
                Some(q) => Some((seq![p.0] + q.0, q.1)),
            },
        }
    }
}

/// The catalog encoded exactly by `b`, or `None` when `b` is not a
/// complete, exact image.
pub open spec fn parse_catalog(b: Seq<u8>) -> Option<Seq<EntryModel>> {
    if b.len() < 8 {
        None
    } else {
        match parse_entries(b.skip(8), word_of_bytes(b) as nat) {
            None => None,
            Some(q) => if q.1.len() == 0 {
                Some(q.0)
            } else {
                None
            },
        }
    }
}

/// The machine-size bounds under which a catalog is encodable: every
/// length must fit in a 64-bit count.
pub open spec fn encodable(s: Seq<EntryModel>) -> bool {
    &&& s.len() < 0x10000000000000000
    &&& forall|i: int| 0 <= i < s.len() ==> (#[trigger] s[i]).id.len() < 0x10000000000000000
        && s[i].payload.len() < 0x10000000000000000
}

proof fn lemma_word_round_trip(x: u64, rest: Seq<u8>)
    ensures
        word_of_bytes(word_bytes(x) + rest) == x,
{
    let b = word_bytes(x) + rest;
    assert(b[0] == (x & 0xff) as u8);
    assert(b[1] == ((x >> 8) & 0xff) as u8);
    assert(b[2] == ((x >> 16) & 0xff) as u8);
    assert(b[3] == ((x >> 24) & 0xff) as u8);
    assert(b[4] == ((x >> 32) & 0xff) as u8);
    assert(b[5] == ((x >> 40) & 0xff) as u8);
    assert(b[6] == ((x >> 48) & 0xff) as u8);
    assert(b[7] == ((x >> 56) & 0xff) as u8);
    assert((((x & 0xff) as u8) as u64)
        | ((((x >> 8) & 0xff) as u8 as u64) << 8)
        | ((((x >> 16) & 0xff) as u8 as u64) << 16)
        | ((((x >> 24) & 0xff) as u8 as u64) << 24)
        | ((((x >> 32) & 0xff) as u8 as u64) << 32)
        | ((((x >> 40) & 0xff) as u8 as u64) << 40)
        | ((((x >> 48) & 0xff) as u8 as u64) << 48)
        | ((((x >> 56) & 0xff) as u8 as u64) << 56) == x) by (bit_vector);
}

proof fn lemma_parse_entry_of_bytes(e: EntryModel, rest: Seq<u8>)
    requires
        e.id.len() < 0x10000000000000000,
        e.payload.len() < 0x10000000000000000,
    ensures
        parse_entry(entry_bytes(e) + rest) == Some((e, rest)),
{
    let b = entry_bytes(e) + rest;
    let t1 = e.id + word_bytes(e.observed_at) + word_bytes(e.payload.len() as u64) + e.payload
        + rest;
    assert(b =~= word_bytes(e.id.len() as u64) + t1);
    lemma_word_round_trip(e.id.len() as u64, t1);
    assert(word_of_bytes(b) as int == e.id.len());
    let r1 = b.skip(8);
    assert(r1 =~= t1);
    assert(r1.take(e.id.len() as int) =~= e.id);
    let r2 = r1.skip(e.id.len() as int);
    let t2 = word_bytes(e.payload.len() as u64) + e.payload + rest;
    assert(r2 =~= word_bytes(e.observed_at) + t2);
    lemma_word_round_trip(e.observed_at, t2);
    assert(word_of_bytes(r2) == e.observed_at);
    let r3 = r2.skip(8);
    let t3 = e.payload + rest;
    assert(r3 =~= word_bytes(e.payload.len() as u64) + t3);
    lemma_word_round_trip(e.payload.len() as u64, t3);
    assert(word_of_bytes(r3) as int == e.payload.len());
    let r4 = r3.skip(8);
    assert(r4 =~= t3);
    assert(r4.take(e.payload.len() as int) =~= e.payload);
    assert(r4.skip(e.payload.len() as int) =~= rest);
    let parsed = parse_entry(b)->Some_0;
    assert(parsed.0 =~= e);
}

proof fn lemma_parse_entries_of_bytes(s: Seq<EntryModel>, rest: Seq<u8>)
    requires
        forall|i: int| 0 <= i < s.len() ==> (#[trigger] s[i]).id.len() < 0x10000000000000000
            && s[i].payload.len() < 0x10000000000000000,
    ensures
        parse_entries(entries_bytes(s) + rest, s.len()) == Some((s, rest)),
    decreases s.len(),
{
    if s.len() == 0 {
        assert(entries_bytes(s) + rest =~= rest);
        assert(parse_entries(rest, 0) == Some((Seq::<EntryModel>::empty(), rest)));
        assert(s =~= Seq::<EntryModel>::empty());
    } else {
        let tail = s.skip(1);
        let b = entries_bytes(s) + rest;
        assert(b =~= entry_bytes(s[0]) + (entries_bytes(tail) + rest));
        lemma_parse_entry_of_bytes(s[0], entries_bytes(tail) + rest);
        assert(forall|i: int| 0 <= i < tail.len() ==> #[trigger] tail[i] == s[i + 1]);
        lemma_parse_entries_of_bytes(tail, rest);
        assert(seq![s[0]] + tail =~= s);
    }
}

/// Round trip: decoding the encoding of any encodable catalog yields that
/// catalog exactly — same ids, same timestamps, same payloads.
pub proof fn lemma_codec_round_trip(s: Seq<EntryModel>)
    requires
        encodable(s),
    ensures
        parse_catalog(catalog_bytes(s)) == Some(s),
{
    let b = catalog_bytes(s);
    lemma_word_round_trip(s.len() as u64, entries_bytes(s));
    assert(word_of_bytes(b) as nat == s.len());
    assert(b.skip(8) =~= entries_bytes(s));
    assert(entries_bytes(s) + Seq::<u8>::empty() =~= entries_bytes(s));
    lemma_parse_entries_of_bytes(s, Seq::<u8>::empty());
    assert(parse_entries(b.skip(8), s.len()) == Some((s, Seq::<u8>::empty())));
}

/// Append the little-endian image of a 64-bit word.
fn push_word(out: &mut Vec<u8>, x: u64)
    ensures
        final(out)@ == old(out)@ + word_bytes(x),
{
    let ghost base = out@;
    out.push((x & 0xff) as u8);
    out.push(((x >> 8) & 0xff) as u8);
    out.push(((x >> 16) & 0xff) as u8);
    out.push(((x >> 24) & 0xff) as u8);
    out.push(((x >> 32) & 0xff) as u8);
    out.push(((x >> 40) & 0xff) as u8);
    out.push(((x >> 48) & 0xff) as u8);
    out.push(((x >> 56) & 0xff) as u8);
    proof {
        assert(out@ =~= base + word_bytes(x));
    }
}

/// Append a byte string.
fn push_bytes(out: &mut Vec<u8>, b: &Vec<u8>)
    ensures
        final(out)@ == old(out)@ + b@,
{
    let ghost base = out@;
    let mut i: usize = 0;
    while i < b.len()
        invariant
            i <= b@.len(),
            out@ == base + b@.take(i as int),
        decreases b@.len() - i,
    {
        out.push(b[i]);
        proof {
            assert(base + b@.take(i as int).push(b@[i as int]) =~= base + b@.take(i + 1));
        }
        i += 1;
    }
    proof {
        assert(b@.take(b@.len() as int) =~= b@);
    }
}

proof fn lemma_entries_bytes_push(s: Seq<EntryModel>, e: EntryModel)
    ensures
        entries_bytes(s.push(e)) == entries_bytes(s) + entry_bytes(e),
    decreases s.len(),
{
    if s.len() == 0 {
        let p = s.push(e);
        assert(p[0] == e);
        assert(p.skip(1) =~= Seq::<EntryModel>::empty());
        assert(entries_bytes(p.skip(1)) == Seq::<u8>::empty());
        assert(entries_bytes(s) == Seq::<u8>::empty());
        assert(entries_bytes(p) == entry_bytes(e) + entries_bytes(p.skip(1)));
        assert(entries_bytes(p) =~= entries_bytes(s) + entry_bytes(e));
    } else {
        assert(s.push(e)[0] == s[0]);
        assert(s.push(e).skip(1) =~= s.skip(1).push(e));
        lemma_entries_bytes_push(s.skip(1), e);
        assert(entry_bytes(s[0]) + (entries_bytes(s.skip(1)) + entry_bytes(e))
            =~= (entry_bytes(s[0]) + entries_bytes(s.skip(1))) + entry_bytes(e));
    }
}

/// Encode the catalog into its durable byte image.
pub fn encode(catalog: &Vec<Entry>) -> (r: Vec<u8>)
    ensures
        r@ == catalog_bytes(models(catalog@)),
{
    let ghost ms = models(catalog@);
    let mut out: Vec<u8> = Vec::new();
    push_word(&mut out, catalog.len() as u64);
    proof {
        assert(ms.take(0) =~= Seq::<EntryModel>::empty());
        assert(out@ =~= word_bytes(ms.len() as u64) + entries_bytes(ms.take(0)));
    }
    let mut i: usize = 0;
    while i < catalog.len()
        invariant
            i <= catalog@.len(),
            ms == models(catalog@),
            out@ == word_bytes(ms.len() as u64) + entries_bytes(ms.take(i as int)),
        decreases catalog@.len() - i,
    {
        let ghost pre = out@;
        let id_len: usize = catalog[i].id.len();
        let pay_len: usize = catalog[i].payload.len();
        push_word(&mut out, id_len as u64);
        push_bytes(&mut out, &catalog[i].id);
        push_word(&mut out, catalog[i].observed_at);
        push_word(&mut out, pay_len as u64);
        push_bytes(&mut out, &catalog[i].payload);
        proof {
            let e = ms[i as int];
            assert(e == catalog@[i as int]@);
            assert(e.id.len() as u64 == id_len as u64);
            assert(e.payload.len() as u64 == pay_len as u64);
            assert(out@ =~= pre + entry_bytes(e));
            lemma_entries_bytes_push(ms.take(i as int), e);
            assert(ms.take(i as int).push(e) =~= ms.take(i + 1));
            assert(out@ =~= word_bytes(ms.len() as u64) + entries_bytes(ms.take(i + 1)));
        }
        i += 1;
    }
    proof {
        assert(ms.take(catalog@.len() as int) =~= ms);
    }
    out
}

/// Read the little-endian word held at `off`.
fn read_word(b: &Vec<u8>, off: usize) -> (x: u64)
    requires
        off + 8 <= b@.len(),
    ensures
        x == word_of_bytes(b@.skip(off as int)),
{
    let _n: usize = b.len();
    (b[off] as u64)
    | ((b[off + 1] as u64) << 8)
    | ((b[off + 2] as u64) << 16)
    | ((b[off + 3] as u64) << 24)
    | ((b[off + 4] as u64) << 32)
    | ((b[off + 5] as u64) << 40)
    | ((b[off + 6] as u64) << 48)
    | ((b[off + 7] as u64) << 56)
}

/// Copy `len` bytes starting at `off`.
fn read_chunk(b: &Vec<u8>, off: usize, len: usize) -> (r: Vec<u8>)
    requires
        off + len <= b@.len(),
    ensures
        r@ == b@.subrange(off as int, off as int + len as int),
{
    let _n: usize = b.len();
    let mut r: Vec<u8> = Vec::new();
    let mut t: usize = 0;
    while t < len
        invariant
            t <= len,
            off + len <= b@.len(),
            b@.len() <= usize::MAX,
            r@ == b@.subrange(off as int, off as int + t as int),
        decreases len - t,
    {
        r.push(b[off + t]);
        proof {
            assert(b@.subrange(off as int, off as int + t as int).push(b@[off + t])
                =~= b@.subrange(off as int, off as int + (t + 1)));
        }
        t += 1;
    }
    r
}

/// Read one record at `off`, returning it with the offset just past it;
/// `None` when no complete record starts there.
fn read_entry(b: &Vec<u8>, off: usize) -> (r: Option<(Entry, usize)>)
    requires
        off <= b@.len(),
    ensures
        match r {
            Some(p) => {
                &&& parse_entry(b@.skip(off as int)) == Some((p.0@, b@.skip(p.1 as int)))
                &&& off < p.1 <= b@.len()
            },
            None => parse_entry(b@.skip(off as int)) is None,
        },
{
    let n = b.len();
    let ghost s0 = b@.skip(off as int);
    if n - off < 8 {
        return None;
    }
    let id_len_w = read_word(b, off);
    let avail1 = n - off - 8;
    if (avail1 as u64) < id_len_w {
        proof {
            assert(s0.skip(8).len() < word_of_bytes(s0) as int);
        }
        return None;
    }
    let id_len = id_len_w as usize;
    let id = read_chunk(b, off + 8, id_len);
    let o2 = off + 8 + id_len;
    proof {
        assert(s0.skip(8) =~= b@.skip(off + 8));
        assert(b@.skip(off + 8).take(id_len as int)
            =~= b@.subrange(off + 8, off + 8 + id_len as int));
        assert(s0.skip(8).skip(id_len as int) =~= b@.skip(o2 as int));
    }
    if n - o2 < 8 {
        return None;
    }
    let ts = read_word(b, o2);
    let o3 = o2 + 8;
    proof {
        assert(b@.skip(o2 as int).skip(8) =~= b@.skip(o3 as int));
    }
    if n - o3 < 8 {
        return None;
    }
    let pay_len_w = read_word(b, o3);
    let avail2 = n - o3 - 8;
    let o4 = o3 + 8;
    proof {
        assert(b@.skip(o3 as int).skip(8) =~= b@.skip(o4 as int));
    }
    if (avail2 as u64) < pay_len_w {
        return None;
    }
    let pay_len = pay_len_w as usize;
    let payload = read_chunk(b, o4, pay_len);
    let end = o4 + pay_len;
    let e = Entry { id, observed_at: ts, payload };
    proof {
        assert(b@.skip(o4 as int).take(pay_len as int)
            =~= b@.subrange(o4 as int, o4 as int + pay_len as int));
        assert(b@.skip(o4 as int).skip(pay_len as int) =~= b@.skip(end as int));
        let parsed = parse_entry(s0)->Some_0;
        assert(parsed.0 =~= e@);
    }
    Some((e, end))
}

/// Decode a durable byte image back into the catalog it holds.
pub fn decode(bytes: &Vec<u8>) -> (r: Result<Vec<Entry>, CodecError>)
    ensures
        match r {
            Ok(c) => parse_catalog(bytes@) == Some(models(c@)),
            Err(_) => parse_catalog(bytes@) is None,
        },
{
    let n = bytes.len();
    if n < 8 {
        return Err(CodecError::Malformed);
    }
    proof {
        assert(bytes@.skip(0) =~= bytes@);
    }
    let count = read_word(bytes, 0);
    let mut out: Vec<Entry> = Vec::new();
    let mut off: usize = 8;
    let mut k: u64 = 0;
    while k < count
        invariant
            8 <= off <= bytes@.len(),
            bytes@.len() >= 8,
            count == word_of_bytes(bytes@),
            k <= count,
            parse_entries(bytes@.skip(8), count as nat) == (match parse_entries(
                bytes@.skip(off as int),
                (count - k) as nat,
            ) {
                None => None::<(Seq<EntryModel>, Seq<u8>)>,
                Some(q) => Some((models(out@) + q.0, q.1)),
            }),
        decreases count - k,
    {
        let ghost off0 = off as int;
        let ghost m = (count - k) as nat;
        match read_entry(bytes, off) {
            None => {
                proof {
                    assert(parse_entries(bytes@.skip(off0), m) is None);
                }
                return Err(CodecError::Malformed);
            },
            Some((e, next)) => {
                proof {
                    assert(parse_entry(bytes@.skip(off0)) == Some((e@, bytes@.skip(next as int))));
                }
                let ghost out_before = models(out@);
                out.push(e);
                proof {
                    assert(models(out@) =~= out_before.push(e@));
                }
                off = next;
                k = k + 1;
                proof {
                    let tail = parse_entries(bytes@.skip(off as int), (count - k) as nat);
                    match tail {
                        None => {
                            assert(parse_entries(bytes@.skip(off0), m) is None);
                        },
                        Some(q) => {
                            assert(parse_entries(bytes@.skip(off0), m)
                                == Some((seq![e@] + q.0, q.1)));
                            assert(out_before + (seq![e@] + q.0)
                                =~= models(out@) + q.0);
                        },
                    }
                }
            },
        }
    }
    proof {
        assert(parse_entries(bytes@.skip(off as int), 0)
            == Some((Seq::<EntryModel>::empty(), bytes@.skip(off as int))));
        assert(models(out@) + Seq::<EntryModel>::empty() =~= models(out@));
        assert(parse_entries(bytes@.skip(8), count as nat)
            == Some((models(out@), bytes@.skip(off as int))));
    }
    if off < bytes.len() {
        return Err(CodecError::Malformed);
    }
    proof {
        assert(bytes@.skip(off as int).len() == 0);
    }
    Ok(out)
}

} // verus!
