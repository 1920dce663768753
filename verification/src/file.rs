//! A whole log held in memory, and the time span that it covers.
use std::collections::HashMap;
use vstd::prelude::*;

use crate::entry::{time_model, EntryModel};
use crate::error::BinlogError;
use crate::format::{timestamp_of, FormatModel, MessageFormat};
use crate::reader::{
    all_entries, format_models, initial_model, lemma_all_entries_step, lemma_initial_wf, lemma_next,
    next_model, Reader, ReaderModel,
};
use crate::{HEADER_MAGIC_0, HEADER_MAGIC_1};

verus! {

broadcast use vstd::std_specs::hash::group_hash_axioms;

/// How many bytes at the end of a log are searched for its last timestamp.
pub const TAIL_SCAN_SIZE: usize = 65536;

/// `acc` with `t` taken into its maximum.
pub open spec fn max_with(acc: Option<nat>, t: nat) -> Option<nat> {
    match acc {
        Some(p) => Some(if p >= t { p } else { t }),
        None => Some(t),
    }
}

/// The greatest timestamp among the messages found in `buf` from `pos` on,
/// taken together with `acc`. A known message type after a header magic,
/// whose whole message fits, is read as a message and skipped; at any other
/// byte the search moves on by one.
pub open spec fn tail_scan(buf: Seq<u8>, formats: Map<u8, FormatModel>, pos: int, acc: Option<nat>) -> Option<nat>
    decreases buf.len() - pos,
{
    if pos < 0 || pos + 3 > buf.len() {
        acc
    } else if buf[pos] == HEADER_MAGIC_0 && buf[pos + 1] == HEADER_MAGIC_1 && formats.contains_key(
        buf[pos + 2],
    ) && formats[buf[pos + 2]].msg_len >= 3 && pos + formats[buf[pos + 2]].msg_len <= buf.len() {
        let f = formats[buf[pos + 2]];
        let next = match timestamp_of(f, buf.subrange(pos + 3, pos + f.msg_len)) {
            Some(t) => max_with(acc, t),
            None => acc,
        };
        tail_scan(buf, formats, pos + f.msg_len, next)
    } else {
        tail_scan(buf, formats, pos + 1, acc)
    }
}

/// Scan a byte buffer for valid message headers and extract the maximum timestamp.
/// Uses the format table to validate message types and sizes.
pub fn scan_tail_for_last_timestamp(buf: &[u8], formats: &HashMap<u8, MessageFormat>) -> (r: Option<u64>)
    ensures
        time_model(r) == tail_scan(buf@, format_models(formats@), 0, None),
{
    let ghost fm = format_models(formats@);
    let len = buf.len();
    let mut max_ts: Option<u64> = None;
    let mut pos: usize = 0;
    while len - pos >= 3
        invariant
            len == buf@.len(),
            pos <= len,
            fm == format_models(formats@),
            tail_scan(buf@, fm, 0, None) == tail_scan(buf@, fm, pos as int, time_model(max_ts)),
        decreases len - pos,
    {
        let t = buf[pos + 2];
        if buf[pos] == HEADER_MAGIC_0 && buf[pos + 1] == HEADER_MAGIC_1 {
            match formats.get(&t) {
                Some(fmt) => {
                    let msg_len = fmt.msg_len as usize;
                    if msg_len >= 3 && msg_len <= len - pos {
                        assert(fm.contains_key(t) && fm[t] == fmt@);
                        let payload = vstd::slice::slice_subrange(buf, pos + 3, pos + msg_len);
                        match fmt.extract_timestamp(payload) {
                            Some(ts) => {
                                max_ts = match max_ts {
                                    Some(prev) => Some(if prev >= ts { prev } else { ts }),
                                    None => Some(ts),
                                };
                            },
                            None => {},
                        }
                        pos = pos + msg_len;
                        continue;
                    }
                },
                None => {},
            }
        }
        pos = pos + 1;
    }
    max_ts
}

/// A DataFlash BIN log, held in memory.
pub struct File {
    data: Vec<u8>,
}

impl View for File {
    type V = Seq<u8>;

    closed spec fn view(&self) -> Seq<u8> {
        self.data@
    }
}

/// The first timestamp among the entries that a reader in state `m` yields,
/// and the state of the reader just after the entry that carries it.
pub open spec fn first_stamp(m: ReaderModel) -> Option<(nat, ReaderModel)>
    decreases m.data.len() - m.pos,
{
    if m.wf() {
        match next_model(m).0 {
            Some(e) => match e.timestamp_usec {
                Some(t) => Some((t, next_model(m).1)),
                None => {
                    proof {
                        lemma_next(m);
                    }
                    first_stamp(next_model(m).1)
                },
            },
            None => None,
        }
    } else {
        None
    }
}

/// The time range of the log `data`: the first timestamp that reading it
/// yields, and the greatest timestamp found in its last `TAIL_SCAN_SIZE`
/// bytes by the formats known at that first timestamp, if that is later.
pub open spec fn time_range_of(data: Seq<u8>) -> Option<(nat, nat)> {
    if data.len() == 0 {
        None
    } else {
        match first_stamp(initial_model(data)) {
            None => None,
            Some((first, m)) => {
                let start = if data.len() > TAIL_SCAN_SIZE {
                    data.len() - TAIL_SCAN_SIZE
                } else {
                    0
                };
                let tail = data.subrange(start, data.len() as int);
                match tail_scan(tail, m.formats, 0, None) {
                    Some(last) => Some((first, if last >= first { last } else { first })),
                    None => Some((first, first)),
                }
            },
        }
    }
}

/// The model of an optional time range.
pub open spec fn range_model(r: Option<(u64, u64)>) -> Option<(nat, nat)> {
    match r {
        Some((a, b)) => Some((a as nat, b as nat)),
        None => None,
    }
}

/// One step of `first_stamp`.
proof fn lemma_first_stamp_step(m: ReaderModel)
    requires
        m.wf(),
    ensures
        first_stamp(m) == match next_model(m).0 {
            Some(e) => match e.timestamp_usec {
                Some(t) => Some((t, next_model(m).1)),
                None => first_stamp(next_model(m).1),
            },
            None => None,
        },
{
}

impl File {
    /// A log made of the given bytes.
    pub fn new(data: Vec<u8>) -> (r: File)
        ensures
            r@ == data@,
    {
        File { data }
    }

    /// Return a fresh reader over the log's entries.
    pub fn entries(&self) -> (r: Result<Reader, BinlogError>)
        ensures
            r matches Ok(rd) && rd@ == initial_model(self@) && rd@.wf(),
    {
        Ok(Reader::new(vstd::slice::slice_to_vec(self.data.as_slice())))
    }

    /// The time range (first_usec, last_usec) of the log.
    ///
    /// Reads the head to find FMTs and the first timestamped message, then
    /// scans the tail for the last timestamp. Returns None for an empty log
    /// or a log with no timestamped entries. Timestamps are boot-relative.
    pub fn time_range(&self) -> (r: Result<Option<(u64, u64)>, BinlogError>)
        ensures
            r matches Ok(t) && range_model(t) == time_range_of(self@),
            r matches Ok(Some((first, last))) ==> first <= last,
    {
        let len = self.data.len();
        if len == 0 {
            return Ok(None);
        }
        let mut reader = Reader::new(vstd::slice::slice_to_vec(self.data.as_slice()));
        let ghost start = reader@;
        let mut first_ts: u64 = 0;
        loop
            invariant_except_break
                first_stamp(reader@) == first_stamp(start),
            invariant
                start == initial_model(self.data@),
                len == self.data@.len(),
                len > 0,
                reader@.wf(),
                reader@.data == self.data@,
            ensures
                first_stamp(start) == Some((first_ts as nat, reader@)),
            decreases reader@.data.len() - reader@.pos,
        {
            let ghost before = reader@;
            proof {
                lemma_next(before);
                lemma_first_stamp_step(before);
            }
            match reader.next_entry() {
                Ok(Some(e)) => {
                    assert(next_model(before).0 == Some(e@));
                    match e.timestamp_usec {
                        Some(ts) => {
                            assert(e@.timestamp_usec == Some(ts as nat));
                            first_ts = ts;
                            break;
                        },
                        None => {},
                    }
                },
                _ => {
                    assert(next_model(before).0 is None);
                    return Ok(None);
                },
            }
        }
        let tail_start = if len > TAIL_SCAN_SIZE {
            len - TAIL_SCAN_SIZE
        } else {
            0
        };
        let tail = vstd::slice::slice_subrange(self.data.as_slice(), tail_start, len);
        let last = scan_tail_for_last_timestamp(tail, reader.formats());
        match last {
            Some(ts) => {
                let hi = if ts >= first_ts {
                    ts
                } else {
                    first_ts
                };
                Ok(Some((first_ts, hi)))
            },
            None => Ok(Some((first_ts, first_ts))),
        }
    }
}

/// The first timestamp that a list of entries carries.
pub open spec fn first_time(es: Seq<EntryModel>) -> Option<nat>
    decreases es.len(),
{
    if es.len() == 0 {
        None
    } else {
        match es[0].timestamp_usec {
            Some(t) => Some(t),
            None => first_time(es.drop_first()),
        }
    }
}

/// The first timestamp found while reading is the first timestamp among all
/// the entries that the reader yields, and none is found exactly when none
/// of them carries one.
pub proof fn law_first_stamp_is_first_entry_timestamp(m: ReaderModel)
    requires
        m.wf(),
    ensures
        match first_stamp(m) {
            Some((t, _)) => first_time(all_entries(m)) == Some(t),
            None => first_time(all_entries(m)) is None,
        },
    decreases m.data.len() - m.pos,
{
    lemma_next(m);
    lemma_first_stamp_step(m);
    lemma_all_entries_step(m);
    match next_model(m).0 {
        Some(e) => {
            let rest = all_entries(next_model(m).1);
            assert((seq![e] + rest)[0] == e);
            assert((seq![e] + rest).drop_first() =~= rest);
            if e.timestamp_usec is None {
                law_first_stamp_is_first_entry_timestamp(next_model(m).1);
            }
        },
        None => {},
    }
}

/// The time range of a log is none exactly when no entry that reading it
/// yields carries a timestamp; otherwise it starts at the first timestamp
/// among those entries and ends no earlier.
pub proof fn law_time_range_starts_at_first_timestamp(data: Seq<u8>)
    ensures
        (time_range_of(data) is None) == (first_time(all_entries(initial_model(data))) is None),
        time_range_of(data) matches Some((a, b)) ==> first_time(all_entries(initial_model(data)))
            == Some(a) && a <= b,
{
    let m = initial_model(data);
    lemma_initial_wf(data);
    law_first_stamp_is_first_entry_timestamp(m);
    if data.len() == 0 {
        reveal(next_model);
        lemma_all_entries_step(m);
    }
}

/// The tail scan never lowers what it has: from a maximum `a` it ends with a
/// maximum of at least `a`.
pub proof fn lemma_tail_scan_keeps(buf: Seq<u8>, formats: Map<u8, FormatModel>, pos: int, acc: Option<nat>)
    ensures
        acc matches Some(a) ==> tail_scan(buf, formats, pos, acc) matches Some(m) && m >= a,
    decreases buf.len() - pos,
{
    if !(pos < 0 || pos + 3 > buf.len()) {
        if buf[pos] == HEADER_MAGIC_0 && buf[pos + 1] == HEADER_MAGIC_1 && formats.contains_key(
            buf[pos + 2],
        ) && formats[buf[pos + 2]].msg_len >= 3 && pos + formats[buf[pos + 2]].msg_len
            <= buf.len() {
            let f = formats[buf[pos + 2]];
            let next = match timestamp_of(f, buf.subrange(pos + 3, pos + f.msg_len)) {
                Some(t) => max_with(acc, t),
                None => acc,
            };
            lemma_tail_scan_keeps(buf, formats, pos + f.msg_len, next);
        } else {
            lemma_tail_scan_keeps(buf, formats, pos + 1, acc);
        }
    }
}

/// The tail maximum bounds every stamp it scans: where the scan stands at a
/// header of a known type whose whole message fits, and that message's
/// payload carries a timestamp (by `Q`, or by `I` with a time label), the
/// scan's result is at least that timestamp, and never below what it had.
pub proof fn law_tail_scan_bounds_each_stamp(
    buf: Seq<u8>,
    formats: Map<u8, FormatModel>,
    pos: int,
    acc: Option<nat>,
    t: nat,
)
    requires
        0 <= pos,
        pos + 3 <= buf.len(),
        buf[pos] == HEADER_MAGIC_0,
        buf[pos + 1] == HEADER_MAGIC_1,
        formats.contains_key(buf[pos + 2]),
        formats[buf[pos + 2]].msg_len >= 3,
        pos + formats[buf[pos + 2]].msg_len <= buf.len(),
        timestamp_of(
            formats[buf[pos + 2]],
            buf.subrange(pos + 3, pos + formats[buf[pos + 2]].msg_len),
        ) == Some(t),
    ensures
        tail_scan(buf, formats, pos, acc) matches Some(m) && m >= t,
        acc matches Some(a) ==> tail_scan(buf, formats, pos, acc) matches Some(m) && m >= a,
{
    let f = formats[buf[pos + 2]];
    let next = max_with(acc, t);
    lemma_tail_scan_keeps(buf, formats, pos + f.msg_len, next);
}

/// A message's timestamp counts whichever field type carries it: an `I`
/// field labelled `TimeMS` or `TimeUS` gives its value times 1000, as a `Q`
/// field gives its value.
pub proof fn law_millisecond_stamps_count(f: FormatModel, p: Seq<u8>)
    requires
        f.format.len() > 0,
        f.format[0] == 'I',
        p.len() >= 4,
        f.labels.len() > 0,
        crate::format::is_time_label(f.labels[0]),
    ensures
        timestamp_of(f, p) == Some(crate::endian::le_uint(p.take(4)) * 1000),
{
}

/// The timestamp of the message whose header stands at `q` in `buf`, where
/// a header of a known type stands there and the whole message fits.
pub open spec fn stamp_at(buf: Seq<u8>, formats: Map<u8, FormatModel>, q: int) -> Option<nat> {
    if 0 <= q && q + 3 <= buf.len() && buf[q] == HEADER_MAGIC_0 && buf[q + 1] == HEADER_MAGIC_1
        && formats.contains_key(buf[q + 2]) && formats[buf[q + 2]].msg_len >= 3 && q
        + formats[buf[q + 2]].msg_len <= buf.len() {
        timestamp_of(formats[buf[q + 2]], buf.subrange(q + 3, q + formats[buf[q + 2]].msg_len))
    } else {
        None
    }
}

/// The tail maximum is a timestamp that was there: the scan from `pos`
/// yields nothing only where it started with nothing, and otherwise either
/// what it started with or the timestamp of a whole message of a known type
/// whose header stands at or after `pos`.
pub proof fn law_tail_scan_result_is_a_stamp(
    buf: Seq<u8>,
    formats: Map<u8, FormatModel>,
    pos: int,
    acc: Option<nat>,
)
    requires
        0 <= pos,
    ensures
        tail_scan(buf, formats, pos, acc) is None ==> acc is None,
        tail_scan(buf, formats, pos, acc) matches Some(m) ==> (acc == Some(m) || exists|q: int|
            pos <= q && #[trigger] stamp_at(buf, formats, q) == Some(m)),
    decreases buf.len() - pos,
{
    if !(pos + 3 > buf.len()) {
        if buf[pos] == HEADER_MAGIC_0 && buf[pos + 1] == HEADER_MAGIC_1 && formats.contains_key(
            buf[pos + 2],
        ) && formats[buf[pos + 2]].msg_len >= 3 && pos + formats[buf[pos + 2]].msg_len
            <= buf.len() {
            let f = formats[buf[pos + 2]];
            let ts = timestamp_of(f, buf.subrange(pos + 3, pos + f.msg_len));
            let next = match ts {
                Some(t) => max_with(acc, t),
                None => acc,
            };
            law_tail_scan_result_is_a_stamp(buf, formats, pos + f.msg_len, next);
            assert(stamp_at(buf, formats, pos) == ts);
        } else {
            law_tail_scan_result_is_a_stamp(buf, formats, pos + 1, acc);
        }
    }
}

} // verus!
