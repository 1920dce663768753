//! Streaming parser state: the bytes of a log, how far it has read, and the
//! message formats discovered so far.
use std::collections::HashMap;
use vstd::prelude::*;

use crate::entry::{entry_models, Entry, EntryModel};
use crate::error::BinlogError;
use crate::format::{
    decode_all, format_of_payload, parse_fmt_payload, timestamp_of, FormatModel,
    MessageFormat,
};
use crate::text::{lemma_pad_labels_len, texts};
use crate::{FMT_TYPE, HEADER_MAGIC_0, HEADER_MAGIC_1};

verus! {

broadcast use vstd::std_specs::hash::group_hash_axioms;

/// After this many consecutive failed messages the reader stops.
pub const MAX_CONSECUTIVE_ERRORS: u32 = 256;

/// Streaming parser for DataFlash BIN data.
///
/// Reads a byte sequence, discovers message schemas via FMT messages, and
/// yields parsed entries.
pub struct Reader {
    data: Vec<u8>,
    pos: usize,
    formats: HashMap<u8, MessageFormat>,
    consecutive_errors: u32,
}

/// What a reader is, in mathematical terms.
pub struct ReaderModel {
    /// All bytes of the log.
    pub data: Seq<u8>,
    /// How many of them have been consumed.
    pub pos: int,
    /// The formats known, by message type.
    pub formats: Map<u8, FormatModel>,
    /// How many messages in a row have failed.
    pub errors: int,
}

/// The models of a table of formats.
pub open spec fn format_models(m: Map<u8, MessageFormat>) -> Map<u8, FormatModel> {
    m.map_values(|f: MessageFormat| f@)
}

impl View for Reader {
    type V = ReaderModel;

    closed spec fn view(&self) -> ReaderModel {
        ReaderModel {
            data: self.data@,
            pos: self.pos as int,
            formats: format_models(self.formats@),
            errors: self.consecutive_errors as int,
        }
    }
}

/// Every format has a label for each of its fields.
pub open spec fn formats_labelled(formats: Map<u8, FormatModel>) -> bool {
    forall|k: u8| #[trigger]
        formats.contains_key(k) ==> formats[k].labels.len() >= formats[k].format.len()
}

/// Every format is stored under its own message type.
pub open spec fn formats_keyed(formats: Map<u8, FormatModel>) -> bool {
    forall|k: u8| #[trigger] formats.contains_key(k) ==> formats[k].msg_type == k
}

/// The table `after` is `before` with one format added or replaced, under its own type.
pub open spec fn one_format_registered(before: Map<u8, FormatModel>, after: Map<u8, FormatModel>) -> bool {
    exists|nf: FormatModel| after == #[trigger] before.insert(nf.msg_type, nf)
}

impl ReaderModel {
    /// The state that every reader keeps.
    pub open spec fn wf(self) -> bool {
        &&& 0 <= self.pos <= self.data.len()
        &&& 0 <= self.errors <= MAX_CONSECUTIVE_ERRORS + 1
        &&& formats_labelled(self.formats)
        &&& formats_keyed(self.formats)
        &&& self.formats.contains_key(FMT_TYPE)
    }

    /// This state, with reading at `p`.
    pub open spec fn at(self, p: int) -> ReaderModel {
        ReaderModel { pos: p, ..self }
    }

    /// This state, with one more failed message.
    pub open spec fn failed(self) -> ReaderModel {
        ReaderModel { errors: self.errors + 1, ..self }
    }

    /// This state, after a message that succeeded.
    pub open spec fn succeeded(self) -> ReaderModel {
        ReaderModel { errors: 0, ..self }
    }
}

/// The name of FMT messages.
pub open spec fn fmt_name() -> Seq<char> {
    seq!['F', 'M', 'T']
}

/// The format of FMT messages that every reader starts with.
pub open spec fn bootstrap_format() -> FormatModel {
    FormatModel {
        msg_type: FMT_TYPE,
        msg_len: 89,
        name: fmt_name(),
        format: seq!['B', 'B', 'n', 'N', 'Z'],
        labels: seq![
            seq!['T', 'y', 'p', 'e'],
            seq!['L', 'e', 'n', 'g', 't', 'h'],
            seq!['N', 'a', 'm', 'e'],
            seq!['F', 'o', 'r', 'm', 'a', 't'],
            seq!['L', 'a', 'b', 'e', 'l', 's'],
        ],
    }
}

/// A fresh reader over `data`.
pub open spec fn initial_model(data: Seq<u8>) -> ReaderModel {
    ReaderModel {
        data,
        pos: 0,
        formats: Map::empty().insert(FMT_TYPE, bootstrap_format()),
        errors: 0,
    }
}

/// The index of the second byte of the first header magic that starts at or after `from`.
pub open spec fn scan_magic(data: Seq<u8>, from: int) -> Option<int>
    decreases data.len() - from,
{
    if from < 0 || from + 1 >= data.len() {
        None
    } else if data[from] == HEADER_MAGIC_0 && data[from + 1] == HEADER_MAGIC_1 {
        Some(from + 1)
    } else {
        scan_magic(data, from + 1)
    }
}

/// A fresh reader is well-formed.
pub proof fn lemma_initial_wf(data: Seq<u8>)
    ensures
        initial_model(data).wf(),
{
    let f = initial_model(data).formats;
    assert forall|k: u8| #[trigger] f.contains_key(k) implies f[k].msg_type == k
        && f[k].labels.len() >= f[k].format.len() by {
        assert(k == FMT_TYPE);
    }
}

/// A found magic lies within the data, after `from`.
pub proof fn lemma_scan_magic_range(data: Seq<u8>, from: int)
    ensures
        scan_magic(data, from) matches Some(j) ==> from + 1 <= j < data.len(),
    decreases data.len() - from,
{
    if !(from < 0 || from + 1 >= data.len()) && !(data[from] == HEADER_MAGIC_0 && data[from + 1]
        == HEADER_MAGIC_1) {
        lemma_scan_magic_range(data, from + 1);
    }
}

/// The message type that follows the next header magic at or after `from`,
/// and where reading goes on; at the end of the data when there is none.
pub open spec fn scan_header(data: Seq<u8>, from: int) -> (Option<u8>, int) {
    match scan_magic(data, from) {
        Some(j) => if j + 1 < data.len() {
            (Some(data[j + 1]), j + 2)
        } else {
            (None, data.len() as int)
        },
        None => (None, data.len() as int),
    }
}

/// What a reader yields after a failed message, and where it stands then:
/// it scans for the next header and parses the message there, unless too
/// many messages in a row have failed.
pub open spec fn recover(m: ReaderModel) -> (Option<EntryModel>, ReaderModel)
    decreases m.data.len() - m.pos, 0int,
{
    if m.errors >= MAX_CONSECUTIVE_ERRORS {
        (None, m)
    } else {
        let (t, p) = scan_header(m.data, m.pos);
        match t {
            None => (None, m.at(p)),
            Some(ty) => {
                proof {
                    lemma_scan_magic_range(m.data, m.pos);
                }
                parse_message(m.at(p), ty)
            },
        }
    }
}

/// What a reader yields for a message of type `t` whose header it has just
/// read, and where it stands then.
pub open spec fn parse_message(m: ReaderModel, t: u8) -> (Option<EntryModel>, ReaderModel)
    decreases m.data.len() - m.pos, 1int,
{
    if !m.formats.contains_key(t) || m.formats[t].msg_len < 3 || m.pos < 0 || m.pos > m.data.len() {
        recover(m.failed())
    } else {
        let f = m.formats[t];
        let n = f.msg_len - 3;
        if m.pos + n > m.data.len() {
            recover(m.failed().at(m.data.len() as int))
        } else {
            let p = m.data.subrange(m.pos, m.pos + n);
            let m1 = m.at(m.pos + n);
            match decode_all(f.format, p) {
                Err(_) => recover(m1.failed()),
                Ok(vs) => if t == FMT_TYPE {
                    if p.len() < 86 {
                        recover(m1.failed())
                    } else {
                        let nf = format_of_payload(p);
                        (
                            Some(
                                EntryModel {
                                    name: fmt_name(),
                                    msg_type: FMT_TYPE,
                                    timestamp_usec: None,
                                    labels: f.labels,
                                    values: vs,
                                },
                            ),
                            ReaderModel { formats: m1.formats.insert(nf.msg_type, nf), ..m1.succeeded() },
                        )
                    }
                } else {
                    (
                        Some(
                            EntryModel {
                                name: f.name,
                                msg_type: t,
                                timestamp_usec: timestamp_of(f, p),
                                labels: f.labels,
                                values: vs,
                            },
                        ),
                        m1.succeeded(),
                    )
                },
            }
        }
    }
}

/// What `next_entry` yields from state `m`, and the state after it.
#[verifier::opaque]
pub open spec fn next_model(m: ReaderModel) -> (Option<EntryModel>, ReaderModel) {
    if m.errors >= MAX_CONSECUTIVE_ERRORS {
        (None, m)
    } else if m.pos + 3 > m.data.len() {
        (None, m.at(m.data.len() as int))
    } else if m.data[m.pos] != HEADER_MAGIC_0 || m.data[m.pos + 1] != HEADER_MAGIC_1 {
        let (t, p) = scan_header(m.data, m.pos + 3);
        match t {
            None => (None, m.failed().at(p)),
            Some(ty) => parse_message(m.failed().at(p), ty),
        }
    } else {
        parse_message(m.at(m.pos + 3), m.data[m.pos + 2])
    }
}

/// The model of an optional entry.
pub open spec fn entry_model(e: Option<Entry>) -> Option<EntryModel> {
    match e {
        Some(x) => Some(x@),
        None => None,
    }
}

/// A table holding `f` at `k`, in models.
proof fn lemma_insert_models(m: Map<u8, MessageFormat>, k: u8, f: MessageFormat)
    ensures
        format_models(m.insert(k, f)) == format_models(m).insert(k, f@),
{
    assert(format_models(m.insert(k, f)) =~= format_models(m).insert(k, f@));
}

impl Reader {
    /// The state that every reader keeps.
    #[verifier::type_invariant]
    spec fn keeps_state(self) -> bool {
        self@.wf()
    }

    /// Create a new reader over the bytes of a log.
    pub fn new(data: Vec<u8>) -> (r: Reader)
        ensures
            r@ == initial_model(data@),
            r@.wf(),
    {
        let mut labels: Vec<String> = Vec::new();
        labels.push(String::from_str("Type"));
        labels.push(String::from_str("Length"));
        labels.push(String::from_str("Name"));
        labels.push(String::from_str("Format"));
        labels.push(String::from_str("Labels"));
        let fmt = MessageFormat {
            msg_type: FMT_TYPE,
            msg_len: 89,
            name: String::from_str("FMT"),
            format: String::from_str("BBnNZ"),
            labels,
        };
        proof {
            reveal_strlit("Type");
            reveal_strlit("Length");
            reveal_strlit("Name");
            reveal_strlit("Format");
            reveal_strlit("Labels");
            reveal_strlit("FMT");
            reveal_strlit("BBnNZ");
            assert(fmt.name@ =~= fmt_name());
            assert(fmt.format@ =~= seq!['B', 'B', 'n', 'N', 'Z']);
            assert(fmt.labels@[0]@ =~= seq!['T', 'y', 'p', 'e']);
            assert(fmt.labels@[1]@ =~= seq!['L', 'e', 'n', 'g', 't', 'h']);
            assert(fmt.labels@[2]@ =~= seq!['N', 'a', 'm', 'e']);
            assert(fmt.labels@[3]@ =~= seq!['F', 'o', 'r', 'm', 'a', 't']);
            assert(fmt.labels@[4]@ =~= seq!['L', 'a', 'b', 'e', 'l', 's']);
            assert(texts(fmt.labels@) =~= bootstrap_format().labels);
            assert(fmt@ == bootstrap_format());
        }
        let mut formats: HashMap<u8, MessageFormat> = HashMap::new();
        let ghost empty = formats@;
        formats.insert(FMT_TYPE, fmt);
        proof {
            lemma_insert_models(empty, FMT_TYPE, fmt);
            assert(format_models(empty) =~= Map::<u8, FormatModel>::empty());
        }
        Reader { data, pos: 0, formats, consecutive_errors: 0 }
    }

    /// Return all message format definitions discovered so far.
    pub fn formats(&self) -> (r: &HashMap<u8, MessageFormat>)
        ensures
            format_models(r@) == self@.formats,
    {
        &self.formats
    }

    /// Scans for the next header magic and reads the message type after it.
    fn scan_for_header(&mut self) -> (r: Option<u8>)
        requires
            old(self)@.wf(),
        ensures
            (r, final(self).pos as int) == scan_header(old(self).data@, old(self).pos as int),
            final(self).data == old(self).data,
            final(self).formats == old(self).formats,
            final(self).consecutive_errors == old(self).consecutive_errors,
    {
        let len = self.data.len();
        let mut i = self.pos;
        while len - i > 1
            invariant
                len == self.data@.len(),
                old(self).pos <= i <= len,
                scan_magic(self.data@, old(self).pos as int) == scan_magic(self.data@, i as int),
                old(self)@.wf(),
                self@ == old(self)@,
                self.pos == old(self).pos,
                self.data == old(self).data,
                self.formats == old(self).formats,
                self.consecutive_errors == old(self).consecutive_errors,
            decreases len - i,
        {
            if self.data[i] == HEADER_MAGIC_0 && self.data[i + 1] == HEADER_MAGIC_1 {
                if len - (i + 1) > 1 {
                    let t = self.data[i + 2];
                    self.pos = i + 3;
                    return Some(t);
                } else {
                    self.pos = len;
                    return None;
                }
            }
            i = i + 1;
        }
        self.pos = len;
        None
    }

    /// Parse a message given its type byte (header already consumed).
    fn parse_message(&mut self, msg_type: u8) -> (r: Option<Entry>)
        requires
            old(self)@.wf(),
            old(self)@.errors < MAX_CONSECUTIVE_ERRORS + 1,
        ensures
            final(self)@.wf(),
            (entry_model(r), final(self)@) == parse_message(old(self)@, msg_type),
        decreases old(self).data@.len() - old(self).pos, 1int,
    {
        let ghost m = self@;
        let f = match self.formats.get(&msg_type) {
            Some(f) => f.duplicate(),
            None => {
                self.consecutive_errors = self.consecutive_errors + 1;
                assert(self@ == m.failed());
                return self.recover_and_retry();
            },
        };
        assert(m.formats.contains_key(msg_type) && m.formats[msg_type] == f@);
        if f.msg_len < 3 {
            self.consecutive_errors = self.consecutive_errors + 1;
            assert(self@ == m.failed());
            return self.recover_and_retry();
        }
        let n = (f.msg_len - 3) as usize;
        if n > self.data.len() - self.pos {
            self.consecutive_errors = self.consecutive_errors + 1;
            self.pos = self.data.len();
            assert(self@ == m.failed().at(m.data.len() as int));
            return self.recover_and_retry();
        }
        let payload = vstd::slice::slice_to_vec(
            vstd::slice::slice_subrange(self.data.as_slice(), self.pos, self.pos + n),
        );
        let ghost p = payload@;
        assert(p == m.data.subrange(m.pos, m.pos + n));
        self.pos = self.pos + n;
        let ghost m1 = self@;
        assert(m1 == m.at(m.pos + n));
        let values = match f.decode_fields(payload.as_slice()) {
            Ok(v) => v,
            Err(_) => {
                self.consecutive_errors = self.consecutive_errors + 1;
                assert(self@ == m1.failed());
                return self.recover_and_retry();
            },
        };
        if msg_type == FMT_TYPE {
            let nf = match parse_fmt_payload(payload.as_slice()) {
                Ok(x) => x,
                Err(_) => {
                    self.consecutive_errors = self.consecutive_errors + 1;
                    assert(self@ == m1.failed());
                    return self.recover_and_retry();
                },
            };
            let name = String::from_str("FMT");
            proof {
                reveal_strlit("FMT");
                assert(name@ =~= fmt_name());
            }
            let entry = Entry { name, msg_type: FMT_TYPE, timestamp_usec: None, labels: f.labels, values };
            let ghost old_formats = self.formats@;
            let mut formats = self.formats.clone();
            formats.insert(nf.msg_type, nf);
            proof {
                lemma_insert_models(old_formats, nf.msg_type, nf);
                lemma_pad_labels_len(
                    crate::text::split_commas(crate::text::padded_text(p.subrange(22, 86))),
                    nf@.format.len(),
                );
                assert(formats_labelled(format_models(formats@)));
                assert(formats_keyed(format_models(formats@)));
            }
            self.formats = formats;
            self.consecutive_errors = 0;
            Some(entry)
        } else {
            let ts = f.extract_timestamp(payload.as_slice());
            let entry = Entry { name: f.name, msg_type, timestamp_usec: ts, labels: f.labels, values };
            self.consecutive_errors = 0;
            Some(entry)
        }
    }

    /// Scan forward for the next header magic, then parse the message there.
    fn recover_and_retry(&mut self) -> (r: Option<Entry>)
        requires
            old(self)@.wf(),
        ensures
            final(self)@.wf(),
            (entry_model(r), final(self)@) == recover(old(self)@),
        decreases old(self).data@.len() - old(self).pos, 0int,
    {
        if self.consecutive_errors >= MAX_CONSECUTIVE_ERRORS {
            return None;
        }
        let ghost m = self@;
        proof {
            lemma_scan_magic_range(m.data, m.pos);
        }
        match self.scan_for_header() {
            Some(t) => self.parse_message(t),
            None => None,
        }
    }

    /// Read the next entry. Returns Ok(None) at the end of the data.
    ///
    /// FMT messages are parsed and registered internally, and also
    /// yielded as Entry values so callers can inspect them.
    ///
    /// On parse errors, the reader attempts recovery by scanning for
    /// the next valid header bytes (0xA3, 0x95). After 256 consecutive
    /// failures, returns Ok(None).
    pub fn next_entry(&mut self) -> (r: Result<Option<Entry>, BinlogError>)
        ensures
            final(self)@.wf(),
            r matches Ok(e) && (entry_model(e), final(self)@) == next_model(old(self)@),
    {
        proof {
            reveal(next_model);
            use_type_invariant(&*self);
        }
        if self.consecutive_errors >= MAX_CONSECUTIVE_ERRORS {
            return Ok(None);
        }
        if self.data.len() - self.pos < 3 {
            self.pos = self.data.len();
            return Ok(None);
        }
        let h0 = self.data[self.pos];
        let h1 = self.data[self.pos + 1];
        let t = self.data[self.pos + 2];
        self.pos = self.pos + 3;
        if h0 != HEADER_MAGIC_0 || h1 != HEADER_MAGIC_1 {
            self.consecutive_errors = self.consecutive_errors + 1;
            match self.scan_for_header() {
                Some(ty) => Ok(self.parse_message(ty)),
                None => Ok(None),
            }
        } else {
            Ok(self.parse_message(t))
        }
    }
}

/// What holds of the state after `recover` or `parse_message`, from a good state.
pub open spec fn step_ok(m: ReaderModel, r: Option<EntryModel>, m2: ReaderModel) -> bool {
    &&& m2.data == m.data
    &&& m.pos <= m2.pos
    &&& m2.wf()
    &&& r is None ==> m2.errors >= MAX_CONSECUTIVE_ERRORS || m2.pos == m.data.len()
    &&& r matches Some(e) ==> m2.errors == 0 && e.labels.len() >= e.values.len()
    &&& m.formats.dom().subset_of(m2.formats.dom())
    &&& (r matches Some(e) && e.msg_type == FMT_TYPE) ==> one_format_registered(m.formats, m2.formats)
    &&& !(r matches Some(e) && e.msg_type == FMT_TYPE) ==> m2.formats == m.formats
}

proof fn lemma_recover(m: ReaderModel)
    requires
        m.wf(),
    ensures
        step_ok(m, recover(m).0, recover(m).1),
    decreases m.data.len() - m.pos, 0int,
{
    if m.errors < MAX_CONSECUTIVE_ERRORS {
        lemma_scan_magic_range(m.data, m.pos);
        let (t, p) = scan_header(m.data, m.pos);
        if let Some(ty) = t {
            lemma_parse_message(m.at(p), ty);
        }
    }
}

proof fn lemma_parse_message(m: ReaderModel, t: u8)
    requires
        m.wf(),
        m.errors <= MAX_CONSECUTIVE_ERRORS,
    ensures
        step_ok(m, parse_message(m, t).0, parse_message(m, t).1),
    decreases m.data.len() - m.pos, 1int,
{
    if !m.formats.contains_key(t) || m.formats[t].msg_len < 3 || m.pos < 0 || m.pos > m.data.len() {
        lemma_recover(m.failed());
    } else {
        let f = m.formats[t];
        let n = f.msg_len - 3;
        if m.pos + n > m.data.len() {
            lemma_recover(m.failed().at(m.data.len() as int));
        } else {
            let p = m.data.subrange(m.pos, m.pos + n);
            let m1 = m.at(m.pos + n);
            crate::format::lemma_decode_all_len(f.format, p);
            match decode_all(f.format, p) {
                Err(_) => lemma_recover(m1.failed()),
                Ok(vs) => if t == FMT_TYPE {
                    if p.len() < 86 {
                        lemma_recover(m1.failed());
                    } else {
                        let nf = format_of_payload(p);
                        lemma_pad_labels_len(
                            crate::text::split_commas(crate::text::padded_text(p.subrange(22, 86))),
                            nf.format.len(),
                        );
                        let m2 = parse_message(m, t).1;
                        assert(m2.formats == m.formats.insert(nf.msg_type, nf));
                        assert(formats_labelled(m2.formats));
                        assert(formats_keyed(m2.formats));
                        assert(one_format_registered(m.formats, m2.formats));
                    }
                },
            }
        }
    }
}

/// What holds of the state after `next_entry`, from a good state.
pub proof fn lemma_next(m: ReaderModel)
    requires
        m.wf(),
    ensures
        step_ok(m, next_model(m).0, next_model(m).1),
        next_model(m).0 is Some ==> next_model(m).1.pos >= m.pos + 3,
{
    reveal(next_model);
    if m.errors < MAX_CONSECUTIVE_ERRORS && m.pos + 3 <= m.data.len() {
        if m.data[m.pos] != HEADER_MAGIC_0 || m.data[m.pos + 1] != HEADER_MAGIC_1 {
            lemma_scan_magic_range(m.data, m.pos + 3);
            let (t, p) = scan_header(m.data, m.pos + 3);
            if let Some(ty) = t {
                lemma_parse_message(m.failed().at(p), ty);
            }
        } else {
            lemma_parse_message(m.at(m.pos + 3), m.data[m.pos + 2]);
        }
    }
}

/// The entries that a reader in state `m` yields until it yields none.
pub open spec fn all_entries(m: ReaderModel) -> Seq<EntryModel>
    decreases m.data.len() - m.pos,
{
    if m.wf() {
        match next_model(m).0 {
            Some(e) => {
                proof {
                    lemma_next(m);
                }
                seq![e] + all_entries(next_model(m).1)
            },
            None => Seq::empty(),
        }
    } else {
        Seq::empty()
    }
}

/// Once a reader has yielded no entry, it yields none again, and its state stays as it is.
pub proof fn law_exhausted_reader_stays_exhausted(m: ReaderModel)
    requires
        m.wf(),
        next_model(m).0 is None,
    ensures
        next_model(next_model(m).1) == (None::<EntryModel>, next_model(m).1),
{
    reveal(next_model);
    lemma_next(m);
    let m2 = next_model(m).1;
    if m2.errors < MAX_CONSECUTIVE_ERRORS {
        assert(m2.at(m2.data.len() as int) == m2);
    }
}

/// Reading keeps a reader well-formed (every format stored under its own
/// type, with a label for each field), consumes bytes, and forgets no format
/// it knew. The format table changes only when an FMT entry is yielded, and
/// then by one format added or replaced under its own type.
pub proof fn law_next_entry_step(m: ReaderModel)
    requires
        m.wf(),
    ensures
        next_model(m).1.wf(),
        formats_keyed(next_model(m).1.formats),
        next_model(m).1.data == m.data,
        next_model(m).1.pos >= m.pos,
        m.formats.dom().subset_of(next_model(m).1.formats.dom()),
        next_model(m).0 is Some ==> next_model(m).1.pos >= m.pos + 3,
        (next_model(m).0 matches Some(e) && e.msg_type == FMT_TYPE) ==> one_format_registered(
            m.formats,
            next_model(m).1.formats,
        ),
        !(next_model(m).0 matches Some(e) && e.msg_type == FMT_TYPE) ==> next_model(m).1.formats
            == m.formats,
{
    lemma_next(m);
}

/// Every entry that a reader yields has a label for each of its values, and
/// yielding it clears the count of failed messages.
pub proof fn law_entry_labels_cover_values(m: ReaderModel)
    requires
        m.wf(),
        next_model(m).0 is Some,
    ensures
        next_model(m).0->0.labels.len() >= next_model(m).0->0.values.len(),
        next_model(m).1.errors == 0,
{
    lemma_next(m);
}

/// One step of `all_entries`.
pub proof fn lemma_all_entries_step(m: ReaderModel)
    requires
        m.wf(),
    ensures
        all_entries(m) == match next_model(m).0 {
            Some(e) => seq![e] + all_entries(next_model(m).1),
            None => Seq::<EntryModel>::empty(),
        },
{
}

impl Reader {
    /// Consume the reader and collect all remaining entries.
    pub fn collect(self) -> (r: Result<Vec<Entry>, BinlogError>)
        ensures
            r matches Ok(v) && entry_models(v@) == all_entries(self@),
    {
        proof {
            use_type_invariant(&self);
        }
        let ghost start = self@;
        let mut reader = self;
        let mut entries: Vec<Entry> = Vec::new();
        assert(entry_models(entries@) + all_entries(reader@) =~= all_entries(start));
        loop
            invariant
                start == self@,
                reader@.wf(),
                entry_models(entries@) + all_entries(reader@) == all_entries(start),
            decreases reader@.data.len() - reader@.pos,
        {
            let ghost before = reader@;
            proof {
                lemma_next(before);
            }
            let r = reader.next_entry();
            proof {
                lemma_all_entries_step(before);
            }
            match r {
                Ok(Some(e)) => {
                    assert(next_model(before).0 == Some(e@));
                    assert(next_model(before).1 == reader@);
                    let ghost done = entry_models(entries@);
                    entries.push(e);
                    assert(entry_models(entries@) =~= done.push(e@));
                    assert(done.push(e@) + all_entries(reader@) =~= done + (seq![e@] + all_entries(reader@)));
                },
                _ => {
                    assert(next_model(before).0 is None);
                    assert(entry_models(entries@) + Seq::<EntryModel>::empty() =~= entry_models(entries@));
                    return Ok(entries);
                },
            }
        }
    }
}

/// Where a reader stands at a complete message of a known, non-FMT type
/// whose payload decodes, it yields that message's entry, decoded by the
/// format of its type, and stands just after it.
pub proof fn law_data_message_is_read(m: ReaderModel)
    requires
        m.wf(),
        m.errors < MAX_CONSECUTIVE_ERRORS,
        m.pos + 3 <= m.data.len(),
        m.data[m.pos] == HEADER_MAGIC_0,
        m.data[m.pos + 1] == HEADER_MAGIC_1,
        m.data[m.pos + 2] != FMT_TYPE,
        m.formats.contains_key(m.data[m.pos + 2]),
        m.formats[m.data[m.pos + 2]].msg_len >= 3,
        m.pos + m.formats[m.data[m.pos + 2]].msg_len <= m.data.len(),
        decode_all(
            m.formats[m.data[m.pos + 2]].format,
            m.data.subrange(m.pos + 3, m.pos + m.formats[m.data[m.pos + 2]].msg_len),
        ) is Ok,
    ensures
        ({
            let t = m.data[m.pos + 2];
            let f = m.formats[t];
            let p = m.data.subrange(m.pos + 3, m.pos + f.msg_len);
            next_model(m) == (
                Some(
                    EntryModel {
                        name: f.name,
                        msg_type: t,
                        timestamp_usec: timestamp_of(f, p),
                        labels: f.labels,
                        values: decode_all(f.format, p)->Ok_0,
                    },
                ),
                ReaderModel { pos: m.pos + f.msg_len, errors: 0, ..m },
            )
        }),
{
    reveal(next_model);
}

/// Where a reader stands at a complete FMT message that decodes, it yields
/// the FMT entry and registers the format that the message defines, under
/// the type that the message names.
pub proof fn law_fmt_message_registers_format(m: ReaderModel)
    requires
        m.wf(),
        m.errors < MAX_CONSECUTIVE_ERRORS,
        m.pos + 3 <= m.data.len(),
        m.data[m.pos] == HEADER_MAGIC_0,
        m.data[m.pos + 1] == HEADER_MAGIC_1,
        m.data[m.pos + 2] == FMT_TYPE,
        m.formats.contains_key(FMT_TYPE),
        m.formats[FMT_TYPE].msg_len >= 89,
        m.pos + m.formats[FMT_TYPE].msg_len <= m.data.len(),
        decode_all(
            m.formats[FMT_TYPE].format,
            m.data.subrange(m.pos + 3, m.pos + m.formats[FMT_TYPE].msg_len),
        ) is Ok,
    ensures
        ({
            let f = m.formats[FMT_TYPE];
            let p = m.data.subrange(m.pos + 3, m.pos + f.msg_len);
            let nf = format_of_payload(p);
            next_model(m) == (
                Some(
                    EntryModel {
                        name: fmt_name(),
                        msg_type: FMT_TYPE,
                        timestamp_usec: None,
                        labels: f.labels,
                        values: decode_all(f.format, p)->Ok_0,
                    },
                ),
                ReaderModel {
                    pos: m.pos + f.msg_len,
                    errors: 0,
                    formats: m.formats.insert(nf.msg_type, nf),
                    ..m
                },
            )
        }),
{
    reveal(next_model);
}

/// No header magic starts in `data` at an index in `[from, to)`.
pub open spec fn no_magic_between(data: Seq<u8>, from: int, to: int) -> bool {
    forall|k: int|
        from <= k < to && k + 1 < data.len() ==> !(#[trigger] data[k] == HEADER_MAGIC_0 && data[k
            + 1] == HEADER_MAGIC_1)
}

/// The scan for a header stops at the first magic.
pub proof fn lemma_scan_magic_finds(data: Seq<u8>, from: int, s: int)
    requires
        0 <= from <= s,
        s + 1 < data.len(),
        no_magic_between(data, from, s),
        data[s] == HEADER_MAGIC_0,
        data[s + 1] == HEADER_MAGIC_1,
    ensures
        scan_magic(data, from) == Some(s + 1),
    decreases s - from,
{
    if from < s {
        assert(!(data[from] == HEADER_MAGIC_0 && data[from + 1] == HEADER_MAGIC_1));
        lemma_scan_magic_finds(data, from + 1, s);
    }
}

/// Where a reader stands at bytes that are no message header, followed by
/// bytes free of header magic and then a complete message of a known,
/// non-FMT type whose payload decodes, it skips the bytes and yields that
/// message's entry.
pub proof fn law_garbage_then_message_is_read(m: ReaderModel, s: int)
    requires
        m.wf(),
        m.errors + 1 < MAX_CONSECUTIVE_ERRORS,
        m.pos + 3 <= s,
        s + 3 <= m.data.len(),
        m.data[m.pos] != HEADER_MAGIC_0 || m.data[m.pos + 1] != HEADER_MAGIC_1,
        no_magic_between(m.data, m.pos + 3, s),
        m.data[s] == HEADER_MAGIC_0,
        m.data[s + 1] == HEADER_MAGIC_1,
        m.data[s + 2] != FMT_TYPE,
        m.formats.contains_key(m.data[s + 2]),
        m.formats[m.data[s + 2]].msg_len >= 3,
        s + m.formats[m.data[s + 2]].msg_len <= m.data.len(),
        decode_all(
            m.formats[m.data[s + 2]].format,
            m.data.subrange(s + 3, s + m.formats[m.data[s + 2]].msg_len),
        ) is Ok,
    ensures
        ({
            let t = m.data[s + 2];
            let f = m.formats[t];
            let p = m.data.subrange(s + 3, s + f.msg_len);
            next_model(m) == (
                Some(
                    EntryModel {
                        name: f.name,
                        msg_type: t,
                        timestamp_usec: timestamp_of(f, p),
                        labels: f.labels,
                        values: decode_all(f.format, p)->Ok_0,
                    },
                ),
                ReaderModel { pos: s + f.msg_len, errors: 0, ..m },
            )
        }),
{
    reveal(next_model);
    lemma_scan_magic_finds(m.data, m.pos + 3, s);
}

/// The state of a reader after `n` calls of `next_entry` from state `m`.
pub open spec fn after_steps(m: ReaderModel, n: nat) -> ReaderModel
    decreases n,
{
    if n == 0 {
        m
    } else {
        next_model(after_steps(m, (n - 1) as nat)).1
    }
}

/// Every state that a reader reaches from a fresh start is well-formed: the
/// FMT format is known, every format is stored under its own type and has a
/// label for each field, and the reading position lies within the data.
pub proof fn law_reachable_readers_are_well_formed(data: Seq<u8>, n: nat)
    ensures
        after_steps(initial_model(data), n).wf(),
        after_steps(initial_model(data), n).formats.contains_key(FMT_TYPE),
        formats_keyed(after_steps(initial_model(data), n).formats),
        formats_labelled(after_steps(initial_model(data), n).formats),
    decreases n,
{
    if n == 0 {
        lemma_initial_wf(data);
    } else {
        law_reachable_readers_are_well_formed(data, (n - 1) as nat);
        lemma_next(after_steps(initial_model(data), (n - 1) as nat));
    }
}

} // verus!
