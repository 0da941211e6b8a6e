//! The persistence codec: the byte layout of the saved state — the current
//! calendar value followed by every reminder entry — together with the proof
//! that loading a just-saved image yields the saved state back, entry for
//! entry. The file I/O itself stays outside the library; the library only
//! frames and checks bytes.
//!
//! Layout, all integers little-endian and fixed width: the current date
//! (year as two bytes, month, day), the entry count as eight bytes, then per
//! entry its stamp (seconds eight bytes, nanoseconds four), its target date
//! (four bytes), the triggered latch as one byte, the label length as eight
//! bytes and the label bytes themselves.

use vstd::prelude::*;
use vstd::bytes::{
    spec_u16_to_le_bytes, spec_u16_from_le_bytes, spec_u32_to_le_bytes, spec_u32_from_le_bytes,
    spec_u64_to_le_bytes, spec_u64_from_le_bytes, lemma_auto_spec_u16_to_from_le_bytes,
    lemma_auto_spec_u32_to_from_le_bytes, lemma_auto_spec_u64_to_from_le_bytes,
    u16_to_le_bytes, u16_from_le_bytes, u32_to_le_bytes, u32_from_le_bytes, u64_to_le_bytes,
    u64_from_le_bytes,
};
use vstd::slice::slice_subrange;
use crate::date::{Date, Stamp, StampedDate, date_wf, date_valid, stamp_wf, stamped_lt};
use crate::store::{Reminder, ReminderModel, Reminders, store_wf, spec_insert_entry};

verus! {

/// The four bytes of a date.
pub open spec fn enc_date(d: Date) -> Seq<u8> {
    spec_u16_to_le_bytes(d.year) + seq![d.month, d.day]
}

/// The date read back from four bytes.
pub open spec fn dec_date(b: Seq<u8>) -> Date {
    Date { year: spec_u16_from_le_bytes(b.subrange(0, 2)), month: b[2], day: b[3] }
}

/// The bytes of one reminder entry.
pub open spec fn enc_entry(e: ReminderModel) -> Seq<u8> {
    spec_u64_to_le_bytes(e.key.time.secs) + spec_u32_to_le_bytes(e.key.time.nanos) + enc_date(
        e.key.date,
    ) + seq![(if e.triggered { 1u8 } else { 0u8 })] + spec_u64_to_le_bytes(e.label.len() as u64)
        + e.label
}

/// The bytes of a sequence of entries, in order.
pub open spec fn enc_entries(s: Seq<ReminderModel>) -> Seq<u8>
    decreases s.len(),
{
    if s.len() == 0 {
        Seq::empty()
    } else {
        enc_entry(s[0]) + enc_entries(s.drop_first())
    }
}

/// The serialized pair: current date, entry count, entries.
pub open spec fn spec_encode(d: Date, s: Seq<ReminderModel>) -> Seq<u8> {
    enc_date(d) + spec_u64_to_le_bytes(s.len() as u64) + enc_entries(s)
}

/// One entry read from the front of a byte stream: its fields decoded and
/// checked, and the remaining bytes. Rejects a malformed stamp, a date of
/// invalid shape, a latch byte other than zero or one, or a label length
/// past the end.
pub open spec fn dec_entry(b: Seq<u8>) -> Option<(ReminderModel, Seq<u8>)> {
    if b.len() < 25 {
        None
    } else {
        let secs = spec_u64_from_le_bytes(b.subrange(0, 8));
        let nanos = spec_u32_from_le_bytes(b.subrange(8, 12));
        let date = dec_date(b.subrange(12, 16));
        let trig = b[16];
        let llen = spec_u64_from_le_bytes(b.subrange(17, 25));
        if nanos < 1_000_000_000 && date_valid(date) && (trig == 0 || trig == 1) && b.len() - 25
            >= llen {
            Some(
                (
                    ReminderModel {
                        key: StampedDate { time: Stamp { secs, nanos }, date },
                        label: b.subrange(25, 25 + llen as int),
                        triggered: trig == 1,
                    },
                    b.skip(25 + llen as int),
                ),
            )
        } else {
            None
        }
    }
}

/// `n` entries read from the front of a byte stream, and the rest.
pub open spec fn dec_entries(b: Seq<u8>, n: nat) -> Option<(Seq<ReminderModel>, Seq<u8>)>
    decreases n,
{
    if n == 0 {
        Some((Seq::empty(), b))
    } else {
        match dec_entry(b) {
            None => None,
            Some((e, rest)) => match dec_entries(rest, (n - 1) as nat) {
                None => None,
                Some((s, rest2)) => Some((seq![e] + s, rest2)),
            },
        }
    }
}

/// A decoded sequence rebuilt into the ordered store: every entry inserted
/// at its sorted position, in the order read, so the sequence on disk needs
/// no order of its own and a later duplicate key overwrites an earlier one.
pub open spec fn spec_rebuild(s: Seq<ReminderModel>) -> Seq<ReminderModel>
    decreases s.len(),
{
    if s.len() == 0 {
        Seq::empty()
    } else {
        spec_insert_entry(spec_rebuild(s.drop_last()), s.last())
    }
}

/// The whole saved state read back: the current date within the parser's
/// bounds and exactly the counted entries, each individually well formed,
/// with no trailing bytes; the entries are rebuilt into the ordered store
/// whatever order they were stored in. Anything malformed is a rejection,
/// which the loader answers with the defaults.
pub open spec fn spec_decode(b: Seq<u8>) -> Option<(Date, Seq<ReminderModel>)> {
    if b.len() < 12 {
        None
    } else {
        let d = dec_date(b.subrange(0, 4));
        let n = spec_u64_from_le_bytes(b.subrange(4, 12));
        if !date_wf(d) {
            None
        } else {
            match dec_entries(b.skip(12), n as nat) {
                None => None,
                Some((s, rest)) => if rest.len() == 0 {
                    Some((d, spec_rebuild(s)))
                } else {
                    None
                },
            }
        }
    }
}

/// Reading one encoded entry off the front of any continuation yields the
/// entry back and leaves the continuation.
proof fn lemma_dec_entry_inverts(e: ReminderModel, tail: Seq<u8>)
    requires
        stamp_wf(e.key.time),
        date_valid(e.key.date),
        e.label.len() <= 0xffff_ffff_ffff_ffff,
    ensures
        dec_entry(enc_entry(e) + tail) == Some((e, tail)),
{
    lemma_auto_spec_u16_to_from_le_bytes();
    lemma_auto_spec_u32_to_from_le_bytes();
    lemma_auto_spec_u64_to_from_le_bytes();
    let b = enc_entry(e) + tail;
    let ll = e.label.len() as int;
    assert(enc_entry(e).len() == 25 + ll);
    assert(b.subrange(0, 8) =~= spec_u64_to_le_bytes(e.key.time.secs));
    assert(b.subrange(8, 12) =~= spec_u32_to_le_bytes(e.key.time.nanos));
    assert(b.subrange(12, 16) =~= enc_date(e.key.date));
    assert(b.subrange(12, 16).subrange(0, 2) =~= spec_u16_to_le_bytes(e.key.date.year));
    assert(dec_date(b.subrange(12, 16)) == e.key.date);
    assert(b[16] == (if e.triggered { 1u8 } else { 0u8 }));
    assert(b.subrange(17, 25) =~= spec_u64_to_le_bytes(e.label.len() as u64));
    assert(b.subrange(25, 25 + ll) =~= e.label);
    assert(b.skip(25 + ll) =~= tail);
}

/// Reading back as many entries as were written yields them all back, in
/// order, and leaves any continuation.
proof fn lemma_dec_entries_invert(s: Seq<ReminderModel>, tail: Seq<u8>)
    requires
        forall|i: int| 0 <= i < s.len() ==> stamp_wf((#[trigger] s[i]).key.time),
        forall|i: int| 0 <= i < s.len() ==> date_valid((#[trigger] s[i]).key.date),
        forall|i: int| 0 <= i < s.len() ==> (#[trigger] s[i]).label.len() <= 0xffff_ffff_ffff_ffff,
    ensures
        dec_entries(enc_entries(s) + tail, s.len()) == Some((s, tail)),
    decreases s.len(),
{
    if s.len() == 0 {
        assert(enc_entries(s) + tail =~= tail);
        assert(dec_entries(tail, 0) == Some((Seq::<ReminderModel>::empty(), tail)));
        assert(s =~= Seq::<ReminderModel>::empty());
    } else {
        let d = s.drop_first();
        lemma_dec_entries_invert(d, tail);
        assert(enc_entries(s) + tail =~= enc_entry(s[0]) + (enc_entries(d) + tail));
        lemma_dec_entry_inverts(s[0], enc_entries(d) + tail);
        assert(seq![s[0]] + d =~= s);
    }
}

/// Inserting an entry whose key lies past every present key appends it.
proof fn lemma_insert_entry_append(s: Seq<ReminderModel>, e: ReminderModel)
    requires
        forall|j: int| 0 <= j < s.len() ==> stamped_lt((#[trigger] s[j]).key, e.key),
    ensures
        spec_insert_entry(s, e) == s.push(e),
    decreases s.len(),
{
    if s.len() == 0 {
        assert(spec_insert_entry(s, e) =~= s.push(e));
    } else {
        lemma_insert_entry_append(s.drop_first(), e);
        assert(seq![s[0]] + s.drop_first().push(e) =~= s.push(e));
    }
}

/// Rebuilding a sequence that is already in ascending key order reproduces
/// it unchanged.
proof fn lemma_rebuild_sorted(s: Seq<ReminderModel>)
    requires
        store_wf(s),
    ensures
        spec_rebuild(s) == s,
    decreases s.len(),
{
    if s.len() > 0 {
        let p = s.drop_last();
        assert(store_wf(p));
        lemma_rebuild_sorted(p);
        assert(forall|j: int| 0 <= j < p.len() ==> stamped_lt((#[trigger] p[j]).key, s.last().key));
        lemma_insert_entry_append(p, s.last());
        assert(p.push(s.last()) =~= s);
    }
}

/// The round-trip law of persistence: decoding an encoded state yields the
/// state back — the same current date and the same entries, key, label and
/// latch alike.
pub proof fn lemma_codec_round_trip(d: Date, s: Seq<ReminderModel>)
    requires
        date_wf(d),
        store_wf(s),
        s.len() <= 0xffff_ffff_ffff_ffff,
        forall|i: int| 0 <= i < s.len() ==> (#[trigger] s[i]).label.len() <= 0xffff_ffff_ffff_ffff,
    ensures
        spec_decode(spec_encode(d, s)) == Some((d, s)),
{
    lemma_auto_spec_u16_to_from_le_bytes();
    lemma_auto_spec_u64_to_from_le_bytes();
    let b = spec_encode(d, s);
    assert(b.subrange(0, 4) =~= enc_date(d));
    assert(b.subrange(0, 4).subrange(0, 2) =~= spec_u16_to_le_bytes(d.year));
    assert(dec_date(b.subrange(0, 4)) == d);
    assert(b.subrange(4, 12) =~= spec_u64_to_le_bytes(s.len() as u64));
    assert(b.skip(12) =~= enc_entries(s) + Seq::<u8>::empty());
    lemma_dec_entries_invert(s, Seq::<u8>::empty());
    lemma_rebuild_sorted(s);
}

/// Appends the bytes of `src` to `out`.
fn append_bytes(out: &mut Vec<u8>, src: &Vec<u8>)
    ensures
        final(out)@ == old(out)@ + src@,
{
    let n = src.len();
    let mut i: usize = 0;
    while i < n
        invariant
            i <= n,
            n == src@.len(),
            out@ == old(out)@ + src@.take(i as int),
        decreases n - i,
    {
        out.push(src[i]);
        proof {
            assert(old(out)@ + src@.take(i as int) + seq![src@[i as int]] =~= old(out)@
                + src@.take(i as int + 1));
        }
        i = i + 1;
    }
    proof {
        assert(src@.take(n as int) =~= src@);
    }
}

/// Writing entries one by one appends their encodings.
proof fn lemma_enc_entries_push(s: Seq<ReminderModel>, x: ReminderModel)
    ensures
        enc_entries(s.push(x)) == enc_entries(s) + enc_entry(x),
    decreases s.len(),
{
    if s.len() == 0 {
        assert(s.push(x)[0] == x);
        assert(s.push(x).drop_first() =~= Seq::<ReminderModel>::empty());
        assert(enc_entries(Seq::<ReminderModel>::empty()) == Seq::<u8>::empty());
        assert(enc_entry(x) + Seq::<u8>::empty() =~= enc_entry(x));
        assert(enc_entries(s) + enc_entry(x) =~= enc_entry(x));
    } else {
        lemma_enc_entries_push(s.drop_first(), x);
        assert(s.push(x)[0] == s[0]);
        assert(s.push(x).drop_first() =~= s.drop_first().push(x));
        assert(enc_entry(s[0]) + (enc_entries(s.drop_first()) + enc_entry(x)) =~= (enc_entry(s[0])
            + enc_entries(s.drop_first())) + enc_entry(x));
    }
}

/// Serializes the saved state: the current date and every reminder entry,
/// exactly as `spec_encode` lays them out.
pub fn encode_state(current: &Date, store: &Reminders) -> (out: Vec<u8>)
    ensures
        out@ == spec_encode(*current, store@),
{
    let mut out: Vec<u8> = Vec::new();
    let mut piece = u16_to_le_bytes(current.year);
    append_bytes(&mut out, &piece);
    out.push(current.month);
    out.push(current.day);
    proof {
        assert(out@ =~= enc_date(*current));
    }
    let count = store.len();
    piece = u64_to_le_bytes(count as u64);
    append_bytes(&mut out, &piece);
    let ghost header = enc_date(*current) + spec_u64_to_le_bytes(store@.len() as u64);
    proof {
        assert(out@ =~= header);
        assert(enc_entries(store@.take(0)) == Seq::<u8>::empty());
        assert(out@ =~= header + enc_entries(store@.take(0)));
    }
    let mut i: usize = 0;
    while i < count
        invariant
            i <= count,
            count == store@.len(),
            out@ == header + enc_entries(store@.take(i as int)),
        decreases count - i,
    {
        let ghost pre = out@;
        let e = store.entry_at(i);
        piece = u64_to_le_bytes(e.key.time.secs);
        append_bytes(&mut out, &piece);
        let piece32 = u32_to_le_bytes(e.key.time.nanos);
        append_bytes(&mut out, &piece32);
        piece = u16_to_le_bytes(e.key.date.year);
        append_bytes(&mut out, &piece);
        out.push(e.key.date.month);
        out.push(e.key.date.day);
        out.push(if e.triggered { 1u8 } else { 0u8 });
        piece = u64_to_le_bytes(e.label.len() as u64);
        append_bytes(&mut out, &piece);
        append_bytes(&mut out, &e.label);
        proof {
            assert(out@ =~= pre + enc_entry(store@[i as int]));
            lemma_enc_entries_push(store@.take(i as int), store@[i as int]);
            assert(store@.take(i as int).push(store@[i as int]) =~= store@.take(i as int + 1));
        }
        i = i + 1;
    }
    proof {
        assert(store@.take(count as int) =~= store@);
    }
    out
}

/// Deserializes a saved state: returns the current date and the rebuilt
/// store exactly when the bytes are a well-formed encoding — the date within
/// the parser's bounds, exactly the counted entries, each individually well
/// formed, no trailing bytes. The entries are inserted into the store in the
/// order read, whatever order they were stored in, a later duplicate key
/// overwriting an earlier one; anything malformed is rejected, precisely as
/// `spec_decode` says.
#[verifier::loop_isolation(false)]
pub fn decode_state(b: &Vec<u8>) -> (r: Option<(Date, Reminders)>)
    ensures
        (match r {
            Some(p) => spec_decode(b@) == Some((p.0, p.1@)) && date_wf(p.0) && store_wf(p.1@),
            None => spec_decode(b@) is None,
        }),
{
    let len = b.len();
    if len < 12 {
        return None;
    }
    let year = u16_from_le_bytes(slice_subrange(b.as_slice(), 0, 2));
    let month = b[2];
    let day = b[3];
    let d = Date { year, month, day };
    proof {
        assert(b@.subrange(0, 4).subrange(0, 2) =~= b@.subrange(0, 2));
        assert(b@.subrange(0, 4)[2] == b@[2] && b@.subrange(0, 4)[3] == b@[3]);
        assert(dec_date(b@.subrange(0, 4)) == d);
    }
    if !(2199 < year && year < 3000 && 1 <= month && month <= 12 && 1 <= day && day <= 30) {
        return None;
    }
    let n = u64_from_le_bytes(slice_subrange(b.as_slice(), 4, 12));
    let mut rem = Reminders::new();
    let ghost mut decoded: Seq<ReminderModel> = Seq::empty();
    let mut pos: usize = 12;
    let mut i: u64 = 0;
    while i < n
        invariant
            12 <= pos <= len,
            i <= n,
            len == b@.len(),
            n == spec_u64_from_le_bytes(b@.subrange(4, 12)),
            store_wf(rem@),
            rem@ == spec_rebuild(decoded),
            (match dec_entries(b@.skip(pos as int), (n - i) as nat) {
                None => dec_entries(b@.skip(12), n as nat) is None,
                Some(pr) => dec_entries(b@.skip(12), n as nat) == Some((decoded + pr.0, pr.1)),
            }),
        decreases n - i,
    {
        let ghost t = b@.skip(pos as int);
        let ghost ms = decoded;
        if len - pos < 25 {
            proof {
                assert(dec_entry(t) is None);
                assert(dec_entries(t, (n - i) as nat) is None);
            }
            return None;
        }
        let secs = u64_from_le_bytes(slice_subrange(b.as_slice(), pos, pos + 8));
        let nanos = u32_from_le_bytes(slice_subrange(b.as_slice(), pos + 8, pos + 12));
        let eyear = u16_from_le_bytes(slice_subrange(b.as_slice(), pos + 12, pos + 14));
        let emonth = b[pos + 14];
        let eday = b[pos + 15];
        let trig = b[pos + 16];
        let llen = u64_from_le_bytes(slice_subrange(b.as_slice(), pos + 17, pos + 25));
        let edate = Date { year: eyear, month: emonth, day: eday };
        proof {
            assert(t.subrange(0, 8) =~= b@.subrange(pos as int, pos + 8));
            assert(t.subrange(8, 12) =~= b@.subrange(pos + 8, pos + 12));
            assert(t.subrange(12, 16).subrange(0, 2) =~= b@.subrange(pos + 12, pos + 14));
            assert(t.subrange(12, 16)[2] == b@[pos + 14] && t.subrange(12, 16)[3] == b@[pos + 15]);
            assert(dec_date(t.subrange(12, 16)) == edate);
            assert(t[16] == b@[pos + 16]);
            assert(t.subrange(17, 25) =~= b@.subrange(pos + 17, pos + 25));
        }
        let ok = nanos < 1_000_000_000 && 1 <= emonth && emonth <= 12 && 1 <= eday && eday <= 30
            && (trig == 0 || trig == 1) && llen <= (len - pos - 25) as u64;
        if !ok {
            proof {
                assert(dec_entry(t) is None);
                assert(dec_entries(t, (n - i) as nat) is None);
            }
            return None;
        }
        let llen_us = llen as usize;
        let mut label: Vec<u8> = Vec::new();
        let mut j: usize = 0;
        while j < llen_us
            invariant
                j <= llen_us,
                len == b@.len(),
                pos + 25 + llen_us <= len,
                label@ == b@.subrange(pos + 25, pos + 25 + j),
            decreases llen_us - j,
        {
            label.push(b[pos + 25 + j]);
            proof {
                assert(b@.subrange(pos + 25, pos + 25 + j) + seq![b@[pos + 25 + j]] =~= b@.subrange(
                    pos + 25,
                    pos + 25 + j + 1,
                ));
            }
            j = j + 1;
        }
        let entry = Reminder {
            key: StampedDate { time: Stamp { secs, nanos }, date: edate },
            label,
            triggered: trig == 1,
        };
        let ghost em = entry@;
        proof {
            assert(t.subrange(25, 25 + llen as int) =~= b@.subrange(pos + 25, pos + 25 + llen as int));
            assert(t.skip(25 + llen as int) =~= b@.skip(pos + 25 + llen as int));
            assert(dec_entry(t) == Some((em, b@.skip(pos + 25 + llen as int))));
        }
        rem.insert_loaded(entry);
        pos = pos + 25 + llen_us;
        i = i + 1;
        proof {
            decoded = decoded.push(em);
            assert(decoded.drop_last() =~= ms);
            assert(decoded.last() == em);
            assert(spec_rebuild(decoded) == spec_insert_entry(spec_rebuild(ms), em));
            let t2 = b@.skip(pos as int);
            match dec_entries(t2, (n - i) as nat) {
                None => {
                    assert(dec_entries(t, (n - i + 1) as nat) is None);
                },
                Some(pr) => {
                    assert(dec_entries(t, (n - i + 1) as nat) == Some((seq![em] + pr.0, pr.1)));
                    assert(ms + (seq![em] + pr.0) =~= decoded + pr.0);
                },
            }
        }
    }
    proof {
        assert(dec_entries(b@.skip(pos as int), 0) == Some(
            (Seq::<ReminderModel>::empty(), b@.skip(pos as int)),
        ));
        assert(decoded + Seq::<ReminderModel>::empty() =~= decoded);
    }
    if pos != len {
        proof {
            assert(b@.skip(pos as int).len() != 0);
        }
        return None;
    }
    proof {
        assert(spec_decode(b@) == Some((d, spec_rebuild(decoded))));
    }
    Some((d, rem))
}

} // verus!
