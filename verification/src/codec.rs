//! The command-log codec: commands are encoded as self-delimiting byte
//! records, so a segment can be scanned sequentially without external
//! framing, and one record can be decoded from a bounded byte range.
//!
//! A record is a tag byte (`SET_TAG` or `REMOVE_TAG`) followed by one string
//! field per component; a string field is the byte length of the string's
//! UTF-8 encoding as eight little-endian bytes, followed by those bytes.
use vstd::prelude::*;
use vstd::bytes::*;
use vstd::utf8::*;

verus! {

/// Tag byte that begins every persisted `Set` record.
pub const SET_TAG: u8 = 0;

/// Tag byte that begins every persisted `Remove` record.
pub const REMOVE_TAG: u8 = 1;

/// A command of the store. `SetCmd` and `RemoveCmd` are the durable units
/// appended to the log; `GetCmd` is a query only and is never persisted.
pub enum Command {
    SetCmd { key: String, value: String },
    GetCmd { key: String },
    RemoveCmd { key: String },
}

impl Command {
    pub fn set(key: String, value: String) -> (c: Command)
        ensures
            c == (Command::SetCmd { key, value }),
    {
        Command::SetCmd { key, value }
    }

    pub fn get(key: String) -> (c: Command)
        ensures
            c == (Command::GetCmd { key }),
    {
        Command::GetCmd { key }
    }

    pub fn del(key: String) -> (c: Command)
        ensures
            c == (Command::RemoveCmd { key }),
    {
        Command::RemoveCmd { key }
    }
}

/// The mathematical model of one persisted record.
pub enum RecModel {
    SetRec { key: Seq<char>, value: Seq<char> },
    RemoveRec { key: Seq<char> },
}

/// Whether a command may be persisted: a logical `Get` never produces a
/// log record.
pub open spec fn loggable(c: Command) -> bool {
    !(c is GetCmd)
}

/// The record a loggable command persists as.
pub open spec fn rec_model(c: Command) -> RecModel
    recommends
        loggable(c),
{
    match c {
        Command::SetCmd { key, value } => RecModel::SetRec { key: key@, value: value@ },
        Command::RemoveCmd { key } => RecModel::RemoveRec { key: key@ },
        Command::GetCmd { .. } => arbitrary(),
    }
}

/// The encoding of one string field: the UTF-8 byte length as eight
/// little-endian bytes, then the UTF-8 bytes themselves.
pub open spec fn spec_encode_str(s: Seq<char>) -> Seq<u8> {
    spec_u64_to_le_bytes(encode_utf8(s).len() as u64) + encode_utf8(s)
}

/// The encoding of one record.
pub open spec fn spec_encode_rec(r: RecModel) -> Seq<u8> {
    match r {
        RecModel::SetRec { key, value } => seq![SET_TAG] + spec_encode_str(key) + spec_encode_str(
            value,
        ),
        RecModel::RemoveRec { key } => seq![REMOVE_TAG] + spec_encode_str(key),
    }
}

/// A record whose string fields fit the eight-byte length prefix. Every
/// record built from executable strings satisfies this.
pub open spec fn rec_wf(r: RecModel) -> bool {
    match r {
        RecModel::SetRec { key, value } => encode_utf8(key).len() <= u64::MAX && encode_utf8(
            value,
        ).len() <= u64::MAX,
        RecModel::RemoveRec { key } => encode_utf8(key).len() <= u64::MAX,
    }
}

/// Outcome of decoding one string field at a position.
pub enum SpecStrStep {
    /// The field's characters and the position one past the field.
    StrDone { s: Seq<char>, end: int },
    /// The bytes end before the field does.
    StrShort,
    /// The field's bytes are not valid UTF-8.
    StrBad,
}

/// Outcome of decoding one record at a position.
pub enum SpecRecStep {
    /// The record's model and the position one past the record.
    RecDone { rec: RecModel, end: int },
    /// The position is exactly the end of the bytes: a clean end of log.
    RecEnd,
    /// The bytes end inside the record: a truncated tail.
    RecShort,
    /// The bytes at the position are not a record.
    RecBad,
}

/// Decodes one string field of `data` at `pos`.
pub open spec fn spec_decode_str(data: Seq<u8>, pos: int) -> SpecStrStep {
    if pos + 8 > data.len() {
        SpecStrStep::StrShort
    } else {
        let n = spec_u64_from_le_bytes(data.subrange(pos, pos + 8)) as int;
        if pos + 8 + n > data.len() {
            SpecStrStep::StrShort
        } else {
            let bytes = data.subrange(pos + 8, pos + 8 + n);
            if valid_utf8(bytes) {
                SpecStrStep::StrDone { s: decode_utf8(bytes), end: pos + 8 + n }
            } else {
                SpecStrStep::StrBad
            }
        }
    }
}

/// Decodes one record of `data` at `pos`.
pub open spec fn spec_decode_rec(data: Seq<u8>, pos: int) -> SpecRecStep {
    if pos >= data.len() {
        SpecRecStep::RecEnd
    } else if data[pos] == SET_TAG {
        match spec_decode_str(data, pos + 1) {
            SpecStrStep::StrDone { s: key, end: p } => match spec_decode_str(data, p) {
                SpecStrStep::StrDone { s: value, end: q } => SpecRecStep::RecDone {
                    rec: RecModel::SetRec { key, value },
                    end: q,
                },
                SpecStrStep::StrShort => SpecRecStep::RecShort,
                SpecStrStep::StrBad => SpecRecStep::RecBad,
            },
            SpecStrStep::StrShort => SpecRecStep::RecShort,
            SpecStrStep::StrBad => SpecRecStep::RecBad,
        }
    } else if data[pos] == REMOVE_TAG {
        match spec_decode_str(data, pos + 1) {
            SpecStrStep::StrDone { s: key, end: p } => SpecRecStep::RecDone {
                rec: RecModel::RemoveRec { key },
                end: p,
            },
            SpecStrStep::StrShort => SpecRecStep::RecShort,
            SpecStrStep::StrBad => SpecRecStep::RecBad,
        }
    } else {
        SpecRecStep::RecBad
    }
}

/// The records of a whole segment, scanned from `pos`: `None` on bytes that
/// are not a record, `Some` of the complete records otherwise, where a clean
/// end and a truncated tail both end the scan.
pub open spec fn spec_parse_log(data: Seq<u8>, pos: int) -> Option<Seq<RecModel>>
    decreases data.len() - pos,
{
    match spec_decode_rec(data, pos) {
        SpecRecStep::RecEnd => Some(Seq::empty()),
        SpecRecStep::RecShort => Some(Seq::empty()),
        SpecRecStep::RecBad => None,
        SpecRecStep::RecDone { rec, end } => if pos < end <= data.len() {
            match spec_parse_log(data, end) {
                Some(rest) => Some(seq![rec] + rest),
                None => None,
            }
        } else {
            None
        },
    }
}

/// The concatenated encodings of a sequence of records: the bytes of a
/// segment holding exactly those records.
pub open spec fn flat_encode(recs: Seq<RecModel>) -> Seq<u8>
    decreases recs.len(),
{
    if recs.len() == 0 {
        Seq::empty()
    } else {
        spec_encode_rec(recs[0]) + flat_encode(recs.drop_first())
    }
}

/// Every record of the sequence fits its length prefixes.
pub open spec fn recs_wf(recs: Seq<RecModel>) -> bool {
    forall|i: int| 0 <= i < recs.len() ==> rec_wf(#[trigger] recs[i])
}

/// Appends `src` to `dst`.
pub(crate) fn append_bytes(dst: &mut Vec<u8>, src: &[u8])
    ensures
        final(dst)@ == old(dst)@ + src@,
{
    let mut i: usize = 0;
    while i < src.len()
        invariant
            i <= src@.len(),
            dst@ == old(dst)@ + src@.take(i as int),
        decreases src@.len() - i,
    {
        let b: u8 = *vstd::slice::slice_index_get(src, i);
        dst.push(b);
        i = i + 1;
        proof {
            assert(dst@ =~= old(dst)@ + src@.take(i as int));
        }
    }
    proof {
        assert(dst@ =~= old(dst)@ + src@);
    }
}

/// Appends the encoding of one string field to `out`.
fn write_str_field(out: &mut Vec<u8>, s: &str)
    ensures
        final(out)@ == old(out)@ + spec_encode_str(s@),
        encode_utf8(s@).len() <= usize::MAX,
{
    let bytes: &[u8] = s.as_bytes();
    let len_bytes: Vec<u8> = u64_to_le_bytes(bytes.len() as u64);
    append_bytes(out, len_bytes.as_slice());
    append_bytes(out, bytes);
    proof {
        assert(final(out)@ =~= old(out)@ + spec_encode_str(s@));
    }
}

/// Encodes one loggable command as a record.
pub fn encode_command(cmd: &Command) -> (out: Vec<u8>)
    requires
        loggable(*cmd),
    ensures
        out@ == spec_encode_rec(rec_model(*cmd)),
        rec_wf(rec_model(*cmd)),
{
    let mut out: Vec<u8> = Vec::new();
    match cmd {
        Command::SetCmd { key, value } => {
            out.push(SET_TAG);
            write_str_field(&mut out, key.as_str());
            write_str_field(&mut out, value.as_str());
            proof {
                assert(out@ =~= spec_encode_rec(rec_model(*cmd)));
            }
        },
        Command::RemoveCmd { key } => {
            out.push(REMOVE_TAG);
            write_str_field(&mut out, key.as_str());
            proof {
                assert(out@ =~= spec_encode_rec(rec_model(*cmd)));
            }
        },
        Command::GetCmd { .. } => {
            proof {
                assert(false);
            }
        },
    }
    out
}

/// Relies on `String::from_utf8`: it succeeds exactly on input that is valid
/// UTF-8 and then returns the string holding those very bytes.
#[verifier::external_body]
fn bytes_to_string(v: Vec<u8>) -> (r: Option<String>)
    ensures
        r is Some <==> valid_utf8(v@),
        r matches Some(s) ==> s@ == decode_utf8(v@) && encode_utf8(s@) == v@,
{
    match String::from_utf8(v) {
        Ok(s) => Some(s),
        Err(_) => None,
    }
}

/// Outcome of decoding one string field, as executable data.
enum FieldStep {
    FieldDone { s: String, end: usize },
    FieldShort,
    FieldBad,
}

spec fn field_matches(r: FieldStep, s: SpecStrStep) -> bool {
    match r {
        FieldStep::FieldDone { s: got, end } => s == (SpecStrStep::StrDone {
            s: got@,
            end: end as int,
        }),
        FieldStep::FieldShort => s == SpecStrStep::StrShort,
        FieldStep::FieldBad => s == SpecStrStep::StrBad,
    }
}

/// Decodes one string field of `data` at `pos`.
fn read_str_field(data: &Vec<u8>, pos: usize) -> (r: FieldStep)
    ensures
        field_matches(r, spec_decode_str(data@, pos as int)),
{
    if data.len() < 8 || pos > data.len() - 8 {
        return FieldStep::FieldShort;
    }
    let len_slice: &[u8] = vstd::slice::slice_subrange(data.as_slice(), pos, pos + 8);
    let n64: u64 = u64_from_le_bytes(len_slice);
    let rem: usize = data.len() - (pos + 8);
    if n64 > rem as u64 {
        return FieldStep::FieldShort;
    }
    let n: usize = n64 as usize;
    let bytes_slice: &[u8] = vstd::slice::slice_subrange(data.as_slice(), pos + 8, pos + 8 + n);
    let field_bytes: Vec<u8> = vstd::slice::slice_to_vec(bytes_slice);
    match bytes_to_string(field_bytes) {
        Some(s) => FieldStep::FieldDone { s, end: pos + 8 + n },
        None => FieldStep::FieldBad,
    }
}

/// Outcome of decoding one record, as executable data.
pub enum DecodeStep {
    /// The decoded command and the position one past its record.
    RecordDone { cmd: Command, end: usize },
    /// The position is exactly the end of the bytes.
    LogEnd,
    /// The bytes end inside the record: a truncated tail.
    TruncatedTail,
    /// The bytes at the position are not a record.
    MalformedRecord,
}

/// How an executable decode outcome corresponds to the specification's.
pub open spec fn step_matches(r: DecodeStep, s: SpecRecStep) -> bool {
    match r {
        DecodeStep::RecordDone { cmd, end } => loggable(cmd) && s == (SpecRecStep::RecDone {
            rec: rec_model(cmd),
            end: end as int,
        }),
        DecodeStep::LogEnd => s == SpecRecStep::RecEnd,
        DecodeStep::TruncatedTail => s == SpecRecStep::RecShort,
        DecodeStep::MalformedRecord => s == SpecRecStep::RecBad,
    }
}

/// Decodes one record of `data` at `pos`.
pub fn decode_command(data: &Vec<u8>, pos: usize) -> (r: DecodeStep)
    ensures
        step_matches(r, spec_decode_rec(data@, pos as int)),
{
    if pos >= data.len() {
        return DecodeStep::LogEnd;
    }
    let tag: u8 = data[pos];
    if tag == SET_TAG {
        match read_str_field(data, pos + 1) {
            FieldStep::FieldDone { s: key, end: p } => match read_str_field(data, p) {
                FieldStep::FieldDone { s: value, end: q } => DecodeStep::RecordDone {
                    cmd: Command::SetCmd { key, value },
                    end: q,
                },
                FieldStep::FieldShort => DecodeStep::TruncatedTail,
                FieldStep::FieldBad => DecodeStep::MalformedRecord,
            },
            FieldStep::FieldShort => DecodeStep::TruncatedTail,
            FieldStep::FieldBad => DecodeStep::MalformedRecord,
        }
    } else if tag == REMOVE_TAG {
        match read_str_field(data, pos + 1) {
            FieldStep::FieldDone { s: key, end: p } => DecodeStep::RecordDone {
                cmd: Command::RemoveCmd { key },
                end: p,
            },
            FieldStep::FieldShort => DecodeStep::TruncatedTail,
            FieldStep::FieldBad => DecodeStep::MalformedRecord,
        }
    } else {
        DecodeStep::MalformedRecord
    }
}

} // verus!

verus! {

/// A byte sequence that is either empty or a strict prefix of one record's
/// encoding: what a crash can leave at the tail of the active segment.
pub open spec fn partial_record(tail: Seq<u8>) -> bool {
    tail.len() == 0 || exists|r: RecModel|
        rec_wf(r) && tail.len() < spec_encode_rec(r).len() && tail == spec_encode_rec(r).take(
            tail.len() as int,
        )
}

/// A part of a byte range known to equal `whole` is the corresponding part
/// of `whole`.
proof fn lemma_chunk(data: Seq<u8>, pos: int, whole: Seq<u8>, off: int, part: Seq<u8>)
    requires
        0 <= pos,
        pos + whole.len() <= data.len(),
        data.subrange(pos, pos + whole.len() as int) == whole,
        0 <= off,
        off + part.len() <= whole.len(),
        whole.subrange(off, off + part.len() as int) == part,
    ensures
        data.subrange(pos + off, pos + off + part.len() as int) == part,
{
    assert forall|i: int| 0 <= i < part.len() implies data.subrange(
        pos + off,
        pos + off + part.len() as int,
    )[i] == part[i] by {
        assert(data[pos + off + i] == data.subrange(pos, pos + whole.len() as int)[off + i]);
        assert(whole.subrange(off, off + part.len() as int)[i] == whole[off + i]);
    }
    assert(data.subrange(pos + off, pos + off + part.len() as int) =~= part);
}

/// Decoding a string field from bytes that hold its encoding yields the
/// original characters and stops exactly at the field's end.
pub proof fn lemma_decode_str_of_encode(data: Seq<u8>, pos: int, s: Seq<char>)
    requires
        0 <= pos,
        encode_utf8(s).len() <= u64::MAX,
        pos + spec_encode_str(s).len() <= data.len(),
        data.subrange(pos, pos + spec_encode_str(s).len() as int) == spec_encode_str(s),
    ensures
        spec_decode_str(data, pos) == (SpecStrStep::StrDone {
            s,
            end: pos + spec_encode_str(s).len(),
        }),
{
    let eb = encode_utf8(s);
    let lb = spec_u64_to_le_bytes(eb.len() as u64);
    let es = spec_encode_str(s);
    lemma_auto_spec_u64_to_from_le_bytes();
    assert(es.subrange(0, 8) =~= lb);
    lemma_chunk(data, pos, es, 0, lb);
    assert(spec_u64_from_le_bytes(data.subrange(pos, pos + 8)) == eb.len() as u64);
    assert(es.subrange(8, es.len() as int) =~= eb);
    lemma_chunk(data, pos, es, 8, eb);
    encode_utf8_valid_utf8(s);
    encode_utf8_decode_utf8(s);
}

/// Decoding a record from bytes that hold its encoding yields the record and
/// stops exactly at its end.
pub proof fn lemma_decode_rec_of_encode(data: Seq<u8>, pos: int, r: RecModel)
    requires
        rec_wf(r),
        0 <= pos,
        pos + spec_encode_rec(r).len() <= data.len(),
        data.subrange(pos, pos + spec_encode_rec(r).len() as int) == spec_encode_rec(r),
    ensures
        spec_decode_rec(data, pos) == (SpecRecStep::RecDone {
            rec: r,
            end: pos + spec_encode_rec(r).len(),
        }),
{
    let er = spec_encode_rec(r);
    assert(data[pos] == er[0]) by {
        assert(data.subrange(pos, pos + er.len() as int)[0] == data[pos]);
    }
    match r {
        RecModel::SetRec { key, value } => {
            let esk = spec_encode_str(key);
            let esv = spec_encode_str(value);
            assert(er[0] == SET_TAG);
            assert(er.subrange(1, 1 + esk.len() as int) =~= esk);
            lemma_chunk(data, pos, er, 1, esk);
            lemma_decode_str_of_encode(data, pos + 1, key);
            assert(er.subrange(1 + esk.len() as int, 1 + esk.len() + esv.len() as int) =~= esv);
            lemma_chunk(data, pos, er, 1 + esk.len() as int, esv);
            lemma_decode_str_of_encode(data, pos + 1 + esk.len() as int, value);
        },
        RecModel::RemoveRec { key } => {
            let esk = spec_encode_str(key);
            assert(er[0] == REMOVE_TAG);
            assert(er.subrange(1, 1 + esk.len() as int) =~= esk);
            lemma_chunk(data, pos, er, 1, esk);
            lemma_decode_str_of_encode(data, pos + 1, key);
        },
    }
}

/// Bytes that end inside a string field decode to `StrShort`.
proof fn lemma_decode_str_short(data: Seq<u8>, pos: int, s: Seq<char>)
    requires
        0 <= pos <= data.len(),
        encode_utf8(s).len() <= u64::MAX,
        data.len() - pos < spec_encode_str(s).len(),
        data.subrange(pos, data.len() as int) == spec_encode_str(s).take(data.len() - pos),
    ensures
        spec_decode_str(data, pos) == SpecStrStep::StrShort,
{
    let eb = encode_utf8(s);
    let lb = spec_u64_to_le_bytes(eb.len() as u64);
    let es = spec_encode_str(s);
    let rem = data.len() - pos;
    lemma_auto_spec_u64_to_from_le_bytes();
    if rem < 8 {
    } else {
        assert(data.subrange(pos, pos + 8) =~= lb) by {
            assert forall|i: int| 0 <= i < 8 implies data.subrange(pos, pos + 8)[i] == lb[i] by {
                assert(data[pos + i] == data.subrange(pos, data.len() as int)[i]);
                assert(es.take(rem)[i] == es[i]);
            }
        }
        assert(spec_u64_from_le_bytes(data.subrange(pos, pos + 8)) == eb.len() as u64);
    }
}

/// Bytes that end inside a record decode to a clean end when nothing of the
/// record is present, and to a truncated tail otherwise.
pub proof fn lemma_decode_rec_short(data: Seq<u8>, pos: int, r: RecModel)
    requires
        rec_wf(r),
        0 <= pos <= data.len(),
        data.len() - pos < spec_encode_rec(r).len(),
        data.subrange(pos, data.len() as int) == spec_encode_rec(r).take(data.len() - pos),
    ensures
        data.len() == pos ==> spec_decode_rec(data, pos) == SpecRecStep::RecEnd,
        data.len() > pos ==> spec_decode_rec(data, pos) == SpecRecStep::RecShort,
{
    let er = spec_encode_rec(r);
    let rem = data.len() - pos;
    if rem == 0 {
    } else {
        assert(data[pos] == er[0]) by {
            assert(data.subrange(pos, data.len() as int)[0] == data[pos]);
            assert(er.take(rem)[0] == er[0]);
        }
        match r {
            RecModel::SetRec { key, value } => {
                let esk = spec_encode_str(key);
                let esv = spec_encode_str(value);
                assert(er[0] == SET_TAG);
                if rem < 1 + esk.len() {
                    assert(data.subrange(pos + 1, data.len() as int) =~= esk.take(rem - 1)) by {
                        assert forall|i: int|
                            0 <= i < rem - 1 implies #[trigger] data.subrange(
                            pos + 1,
                            data.len() as int,
                        )[i] == esk.take(rem - 1)[i] by {
                            assert(data[pos + 1 + i] == data.subrange(pos, data.len() as int)[1
                                + i]);
                            assert(er.take(rem)[1 + i] == er[1 + i]);
                            assert(er[1 + i] == esk[i]);
                        }
                    }
                    lemma_decode_str_short(data, pos + 1, key);
                } else {
                    assert(er.subrange(1, 1 + esk.len() as int) =~= esk);
                    assert(data.subrange(pos + 1, pos + 1 + esk.len() as int) =~= esk) by {
                        assert forall|i: int|
                            0 <= i < esk.len() implies #[trigger] data.subrange(
                            pos + 1,
                            pos + 1 + esk.len() as int,
                        )[i] == esk[i] by {
                            assert(data[pos + 1 + i] == data.subrange(pos, data.len() as int)[1
                                + i]);
                            assert(er.take(rem)[1 + i] == er[1 + i]);
                            assert(er[1 + i] == esk[i]);
                        }
                    }
                    lemma_decode_str_of_encode(data, pos + 1, key);
                    let p = pos + 1 + esk.len() as int;
                    assert(data.subrange(p, data.len() as int) =~= esv.take(data.len() - p)) by {
                        assert forall|i: int|
                            0 <= i < data.len() - p implies #[trigger] data.subrange(
                            p,
                            data.len() as int,
                        )[i] == esv.take(data.len() - p)[i] by {
                            assert(data[p + i] == data.subrange(pos, data.len() as int)[1
                                + esk.len() + i]);
                            assert(er.take(rem)[1 + esk.len() + i] == er[1 + esk.len() + i]);
                            assert(er[1 + esk.len() + i] == esv[i]);
                        }
                    }
                    lemma_decode_str_short(data, p, value);
                }
            },
            RecModel::RemoveRec { key } => {
                let esk = spec_encode_str(key);
                assert(er[0] == REMOVE_TAG);
                assert(data.subrange(pos + 1, data.len() as int) =~= esk.take(rem - 1)) by {
                    assert forall|i: int|
                        0 <= i < rem - 1 implies #[trigger] data.subrange(
                        pos + 1,
                        data.len() as int,
                    )[i] == esk.take(rem - 1)[i] by {
                        assert(data[pos + 1 + i] == data.subrange(pos, data.len() as int)[1 + i]);
                        assert(er.take(rem)[1 + i] == er[1 + i]);
                        assert(er[1 + i] == esk[i]);
                    }
                }
                lemma_decode_str_short(data, pos + 1, key);
            },
        }
    }
}

} // verus!

verus! {

/// A decoded string field is the decoding of exactly the bytes of its
/// encoding: what `spec_decode_str` accepts, `spec_encode_str` reproduces.
pub proof fn lemma_decode_str_inverts(data: Seq<u8>, pos: int, s: Seq<char>, end: int)
    requires
        0 <= pos,
        spec_decode_str(data, pos) == (SpecStrStep::StrDone { s, end }),
    ensures
        pos + 8 <= end <= data.len(),
        encode_utf8(s).len() <= u64::MAX,
        encode_utf8(s).len() == end - (pos + 8),
        data.subrange(pos, end) == spec_encode_str(s),
        spec_encode_str(s).len() == end - pos,
{
    let lb = data.subrange(pos, pos + 8);
    let n = spec_u64_from_le_bytes(lb) as int;
    let bytes = data.subrange(pos + 8, pos + 8 + n);
    lemma_auto_spec_u64_to_from_le_bytes();
    decode_utf8_encode_utf8(bytes);
    assert(encode_utf8(s) == bytes);
    assert(spec_u64_to_le_bytes(encode_utf8(s).len() as u64) == lb);
    assert(data.subrange(pos, end) =~= lb + bytes);
}

/// A decoded record occupies exactly the bytes of its encoding: what
/// `spec_decode_rec` accepts, `spec_encode_rec` reproduces.
pub proof fn lemma_decode_rec_inverts(data: Seq<u8>, pos: int, r: RecModel, end: int)
    requires
        0 <= pos,
        spec_decode_rec(data, pos) == (SpecRecStep::RecDone { rec: r, end }),
    ensures
        pos < end <= data.len(),
        rec_wf(r),
        data.subrange(pos, end) == spec_encode_rec(r),
        spec_encode_rec(r).len() == end - pos,
{
    match r {
        RecModel::SetRec { key, value } => {
            let kstep = spec_decode_str(data, pos + 1);
            if let SpecStrStep::StrDone { s: k, end: p } = kstep {
                lemma_decode_str_inverts(data, pos + 1, k, p);
                let vstep = spec_decode_str(data, p);
                if let SpecStrStep::StrDone { s: v, end: q } = vstep {
                    lemma_decode_str_inverts(data, p, v, q);
                    assert(data.subrange(pos, end) =~= seq![SET_TAG] + spec_encode_str(key)
                        + spec_encode_str(value)) by {
                        assert(data.subrange(pos + 1, p) == spec_encode_str(key));
                        assert(data.subrange(p, q) == spec_encode_str(value));
                        assert forall|i: int| 0 <= i < end - pos implies #[trigger] data.subrange(
                            pos,
                            end,
                        )[i] == (seq![SET_TAG] + spec_encode_str(key) + spec_encode_str(value))[i]
                            by {
                            if i == 0 {
                            } else if i < 1 + (p - (pos + 1)) {
                                assert(data.subrange(pos + 1, p)[i - 1] == data[pos + i]);
                            } else {
                                assert(data.subrange(p, q)[pos + i - p] == data[pos + i]);
                            }
                        }
                    }
                }
            }
        },
        RecModel::RemoveRec { key } => {
            let kstep = spec_decode_str(data, pos + 1);
            if let SpecStrStep::StrDone { s: k, end: p } = kstep {
                lemma_decode_str_inverts(data, pos + 1, k, p);
                assert(data.subrange(pos, end) =~= seq![REMOVE_TAG] + spec_encode_str(key)) by {
                    assert(data.subrange(pos + 1, p) == spec_encode_str(key));
                    assert forall|i: int| 0 <= i < end - pos implies #[trigger] data.subrange(
                        pos,
                        end,
                    )[i] == (seq![REMOVE_TAG] + spec_encode_str(key))[i] by {
                        if i == 0 {
                        } else {
                            assert(data.subrange(pos + 1, p)[i - 1] == data[pos + i]);
                        }
                    }
                }
            }
        },
    }
}

/// Appending one record's encoding extends the flat encoding by that record.
pub proof fn lemma_flat_encode_push(recs: Seq<RecModel>, r: RecModel)
    ensures
        flat_encode(recs.push(r)) == flat_encode(recs) + spec_encode_rec(r),
    decreases recs.len(),
{
    if recs.len() == 0 {
        assert(recs.push(r).drop_first() =~= Seq::<RecModel>::empty());
        assert(flat_encode(Seq::<RecModel>::empty()) == Seq::<u8>::empty());
        assert(recs.push(r)[0] == r);
        assert(flat_encode(recs.push(r)) == spec_encode_rec(r) + Seq::<u8>::empty());
        assert(flat_encode(recs) == Seq::<u8>::empty());
        assert(flat_encode(recs.push(r)) =~= flat_encode(recs) + spec_encode_rec(r));
    } else {
        assert(recs.push(r).drop_first() =~= recs.drop_first().push(r));
        lemma_flat_encode_push(recs.drop_first(), r);
        assert(recs.push(r)[0] == recs[0]);
        assert(flat_encode(recs.push(r)) == spec_encode_rec(recs[0]) + (flat_encode(
            recs.drop_first(),
        ) + spec_encode_rec(r)));
        assert(flat_encode(recs.push(r)) =~= flat_encode(recs) + spec_encode_rec(r));
    }
}

/// Scanning a segment that holds the encodings of `recs`, followed by
/// nothing or by the truncated beginning of one more record, yields exactly
/// `recs`: complete records survive a crash that cuts the tail.
pub proof fn lemma_parse_log_of_encodes(data: Seq<u8>, pos: int, recs: Seq<RecModel>, tail: Seq<u8>)
    requires
        0 <= pos <= data.len(),
        recs_wf(recs),
        data.subrange(pos, data.len() as int) == flat_encode(recs) + tail,
        partial_record(tail),
    ensures
        spec_parse_log(data, pos) == Some(recs),
    decreases recs.len(),
{
    if recs.len() == 0 {
        assert(data.subrange(pos, data.len() as int) =~= tail);
        if tail.len() == 0 {
            assert(data.len() == pos);
            assert(spec_parse_log(data, pos) == Some(Seq::<RecModel>::empty()));
        } else {
            let r = choose|r: RecModel|
                rec_wf(r) && tail.len() < spec_encode_rec(r).len() && tail == spec_encode_rec(
                    r,
                ).take(tail.len() as int);
            lemma_decode_rec_short(data, pos, r);
        }
        assert(recs =~= Seq::<RecModel>::empty());
    } else {
        let r0 = recs[0];
        let enc0 = spec_encode_rec(r0);
        let rest = flat_encode(recs.drop_first()) + tail;
        assert(flat_encode(recs) == enc0 + flat_encode(recs.drop_first()));
        assert(flat_encode(recs) + tail =~= enc0 + rest);
        assert(rec_wf(r0));
        assert(enc0.len() >= 1) by {
            match r0 {
                RecModel::SetRec { key, value } => {},
                RecModel::RemoveRec { key } => {},
            }
        }
        assert(pos + enc0.len() <= data.len());
        assert(data.subrange(pos, pos + enc0.len() as int) =~= enc0) by {
            assert forall|i: int| 0 <= i < enc0.len() implies #[trigger] data.subrange(
                pos,
                pos + enc0.len() as int,
            )[i] == enc0[i] by {
                assert(data[pos + i] == data.subrange(pos, data.len() as int)[i]);
                assert((flat_encode(recs) + tail)[i] == flat_encode(recs)[i]);
                assert(flat_encode(recs)[i] == (enc0 + flat_encode(recs.drop_first()))[i]);
            }
        }
        lemma_decode_rec_of_encode(data, pos, r0);
        let end = pos + enc0.len() as int;
        assert(data.subrange(end, data.len() as int) =~= rest) by {
            assert forall|i: int| 0 <= i < data.len() - end implies #[trigger] data.subrange(
                end,
                data.len() as int,
            )[i] == rest[i] by {
                assert(data[end + i] == data.subrange(pos, data.len() as int)[enc0.len() + i]);
                assert((flat_encode(recs) + tail)[enc0.len() + i] == (enc0 + rest)[enc0.len() + i]);
            }
        }
        assert(recs_wf(recs.drop_first())) by {
            assert forall|i: int| 0 <= i < recs.drop_first().len() implies rec_wf(
                #[trigger] recs.drop_first()[i],
            ) by {
                assert(recs.drop_first()[i] == recs[i + 1]);
            }
        }
        lemma_parse_log_of_encodes(data, end, recs.drop_first(), tail);
        assert(seq![r0] + recs.drop_first() =~= recs);
    }
}

} // verus!

verus! {

/// Law: a crash that cuts the active segment mid-record loses only the cut
/// record — a segment holding complete records followed by the truncated
/// beginning of one more scans to exactly the complete records.
pub proof fn lemma_truncation_tolerated(recs: Seq<RecModel>, tail: Seq<u8>)
    requires
        recs_wf(recs),
        partial_record(tail),
    ensures
        spec_parse_log(flat_encode(recs) + tail, 0) == Some(recs),
{
    let data = flat_encode(recs) + tail;
    assert(data.subrange(0, data.len() as int) =~= data);
    lemma_parse_log_of_encodes(data, 0, recs, tail);
}

} // verus!
