//! The persisted form of a store: the main file and the write-ahead log, as bytes.
//!
//! The main file is a header of 16 bytes and the encoded store. The log is a sequence of frames, one
//! for each statement that changed the store: a checksum, a length, and the encoded statement. A
//! crash can leave part of a frame at the end of the log; reading stops there, and what is kept are
//! the frames before it. Encoding and decoding are functions of the caller, and so is the work on
//! files.
use vstd::prelude::*;

use crate::engine;
use crate::ir::{Statement, Store};
#[allow(unused_imports)]
use crate::ir::{StmtV, StoreV};
use crate::ordmap;
use crate::text;

verus! {

/// The version of the file format.
pub const FORMAT_VERSION: u32 = 1;

/// A log longer than this, 1 MiB, is to be folded into the main file.
pub const CHECKPOINT_THRESHOLD: u64 = 1_048_576;

/// An error of the persisted store. Errors of the file system and of the codec are carried as
/// their messages.
#[derive(Debug, PartialEq, Eq)]
pub enum StorageError {
    Io(String),
    Codec(String),
    BadVersion(u32),
    BadMagic,
    TornFrame(u64),
}

#[verifier::ext_equal]
pub enum StorageErrV {
    Io(Seq<char>),
    Codec(Seq<char>),
    BadVersion(u32),
    BadMagic,
    TornFrame(u64),
}

impl View for StorageError {
    type V = StorageErrV;

    open spec fn view(&self) -> StorageErrV {
        match *self {
            StorageError::Io(m) => StorageErrV::Io(m@),
            StorageError::Codec(m) => StorageErrV::Codec(m@),
            StorageError::BadVersion(v) => StorageErrV::BadVersion(v),
            StorageError::BadMagic => StorageErrV::BadMagic,
            StorageError::TornFrame(o) => StorageErrV::TornFrame(o),
        }
    }
}

/// A storage error in writing.
pub open spec fn storage_error_text(e: StorageErrV) -> Seq<char> {
    match e {
        StorageErrV::Io(m) => "io error: "@ + m,
        StorageErrV::Codec(m) => "serialization error: "@ + m,
        StorageErrV::BadVersion(v) => "unsupported format version "@ + text::dec_text(v as nat)
            + " (expected "@ + text::dec_text(FORMAT_VERSION as nat) + ")"@,
        StorageErrV::BadMagic => "bad magic header"@,
        StorageErrV::TornFrame(o) => "torn/corrupt WAL frame at offset "@ + text::dec_text(
            o as nat,
        ) + " (truncated)"@,
    }
}

impl Clone for StorageError {
    fn clone(&self) -> (r: Self)
        ensures
            r@ == self@,
    {
        match self {
            StorageError::Io(m) => StorageError::Io(text::owned(m.as_str())),
            StorageError::Codec(m) => StorageError::Codec(text::owned(m.as_str())),
            StorageError::BadVersion(v) => StorageError::BadVersion(*v),
            StorageError::BadMagic => StorageError::BadMagic,
            StorageError::TornFrame(o) => StorageError::TornFrame(*o),
        }
    }
}

impl StorageError {
    /// The error in writing.
    pub fn to_text(&self) -> (r: String)
        ensures
            r@ == storage_error_text(self@),
    {
        match self {
            StorageError::Io(m) => text::join2("io error: ", m.as_str()),
            StorageError::Codec(m) => text::join2("serialization error: ", m.as_str()),
            StorageError::BadVersion(v) => {
                let got = text::u64_text(*v as u64);
                let want = text::u64_text(FORMAT_VERSION as u64);
                let mut r = text::join4(
                    "unsupported format version ",
                    got.as_str(),
                    " (expected ",
                    want.as_str(),
                );
                r.append(")");
                r
            },
            StorageError::BadMagic => text::owned("bad magic header"),
            StorageError::TornFrame(o) => {
                let at = text::u64_text(*o);
                text::join3("torn/corrupt WAL frame at offset ", at.as_str(), " (truncated)")
            },
        }
    }
}

// ---------------------------------------------------------------------------------------------
// Bytes
// ---------------------------------------------------------------------------------------------
/// The four bytes of `x`, the least significant first.
pub open spec fn le_bytes(x: u32) -> Seq<u8> {
    seq![
        (x % 256) as u8,
        (x / 256 % 256) as u8,
        (x / 65_536 % 256) as u8,
        (x / 16_777_216) as u8,
    ]
}

/// The number whose four bytes stand in `b` at `at`.
pub open spec fn le_value(b: Seq<u8>, at: int) -> int {
    b[at] + 256 * b[at + 1] + 65_536 * b[at + 2] + 16_777_216 * b[at + 3]
}

/// Reading back the bytes of a number gives the number.
pub proof fn law_number_reads_back(x: u32, before: Seq<u8>, after: Seq<u8>)
    ensures
        le_value(before + le_bytes(x) + after, before.len() as int) == x,
{
    let b = before + le_bytes(x) + after;
    let n = before.len() as int;
    assert(b[n] == le_bytes(x)[0]);
    assert(b[n + 1] == le_bytes(x)[1]);
    assert(b[n + 2] == le_bytes(x)[2]);
    assert(b[n + 3] == le_bytes(x)[3]);
}

fn put_le(out: &mut Vec<u8>, x: u32)
    ensures
        final(out)@ == old(out)@ + le_bytes(x),
{
    out.push((x % 256) as u8);
    out.push((x / 256 % 256) as u8);
    out.push((x / 65_536 % 256) as u8);
    out.push((x / 16_777_216) as u8);
    assert(out@ =~= old(out)@ + le_bytes(x));
}

fn get_le(b: &Vec<u8>, at: usize) -> (r: u32)
    requires
        at + 4 <= b.len(),
    ensures
        r == le_value(b@, at as int),
{
    b[at] as u32 + 256 * (b[at + 1] as u32) + 65_536 * (b[at + 2] as u32) + 16_777_216 * (b[at
        + 3] as u32)
}

fn put_bytes(out: &mut Vec<u8>, b: &Vec<u8>)
    ensures
        final(out)@ == old(out)@ + b@,
{
    let mut i: usize = 0;
    assert(b@.take(0) =~= Seq::<u8>::empty());
    assert(out@ =~= old(out)@ + b@.take(0));
    while i < b.len()
        invariant
            i <= b.len(),
            out@ == old(out)@ + b@.take(i as int),
        decreases b.len() - i,
    {
        out.push(b[i]);
        i = i + 1;
        assert(b@.take(i as int) =~= b@.take(i - 1).push(b@[i - 1]));
        assert(out@ =~= old(out)@ + b@.take(i as int));
    }
    assert(b@.take(i as int) =~= b@);
}

fn bytes_of(b: &Vec<u8>, from: usize, to: usize) -> (r: Vec<u8>)
    requires
        from <= to <= b.len(),
    ensures
        r@ == b@.subrange(from as int, to as int),
{
    let mut r: Vec<u8> = Vec::new();
    let mut i: usize = from;
    assert(r@ =~= b@.subrange(from as int, from as int));
    while i < to
        invariant
            from <= i <= to <= b.len(),
            r@ == b@.subrange(from as int, i as int),
        decreases to - i,
    {
        r.push(b[i]);
        i = i + 1;
        assert(r@ =~= b@.subrange(from as int, i as int));
    }
    r
}

// ---------------------------------------------------------------------------------------------
// The main file
// ---------------------------------------------------------------------------------------------
/// The eight bytes that a main file starts with: `NQLITE01`.
pub open spec fn magic() -> Seq<u8> {
    seq![0x4E, 0x51, 0x4C, 0x49, 0x54, 0x45, 0x30, 0x31]
}

/// The main file of an encoded store: the header, that is the magic bytes, the version and a zero,
/// and then the store.
pub open spec fn main_file(payload: Seq<u8>) -> Seq<u8> {
    magic() + le_bytes(FORMAT_VERSION) + le_bytes(0) + payload
}

/// What a main file holds: nothing if it is shorter than a header, the encoded store, or an error.
pub open spec fn main_payload(data: Seq<u8>) -> Result<Option<Seq<u8>>, StorageErrV> {
    if data.len() < 16 {
        Ok(None)
    } else if data.take(8) != magic() {
        Err(StorageErrV::BadMagic)
    } else if le_value(data, 8) != FORMAT_VERSION {
        Err(StorageErrV::BadVersion(le_value(data, 8) as u32))
    } else {
        Ok(Some(data.skip(16)))
    }
}

fn put_magic(out: &mut Vec<u8>)
    ensures
        final(out)@ == old(out)@ + magic(),
{
    out.push(0x4E);
    out.push(0x51);
    out.push(0x4C);
    out.push(0x49);
    out.push(0x54);
    out.push(0x45);
    out.push(0x30);
    out.push(0x31);
    assert(out@ =~= old(out)@ + magic());
}

/// The bytes of a main file with the given encoded store.
pub fn encode_main(payload: &Vec<u8>) -> (r: Vec<u8>)
    ensures
        r@ == main_file(payload@),
{
    let mut out: Vec<u8> = Vec::new();
    put_magic(&mut out);
    put_le(&mut out, FORMAT_VERSION);
    put_le(&mut out, 0);
    put_bytes(&mut out, payload);
    assert(out@ =~= main_file(payload@));
    out
}

/// The encoded store in a main file, `None` where the file is too short to hold one. A missing file
/// is read as an empty one.
pub fn decode_main(data: &Vec<u8>) -> (r: Result<Option<Vec<u8>>, StorageError>)
    ensures
        match r {
            Ok(Some(payload)) => main_payload(data@) == Ok::<Option<Seq<u8>>, StorageErrV>(
                Some(payload@),
            ),
            Ok(None) => main_payload(data@) == Ok::<Option<Seq<u8>>, StorageErrV>(None),
            Err(e) => main_payload(data@) == Err::<Option<Seq<u8>>, StorageErrV>(e@),
        },
{
    if data.len() < 16 {
        return Ok(None);
    }
    let mut want: Vec<u8> = Vec::new();
    put_magic(&mut want);
    assert(want@ =~= magic());
    let mut i: usize = 0;
    while i < 8
        invariant
            i <= 8,
            want@ == magic(),
            data.len() >= 16,
            forall|j: int| 0 <= j < i ==> data@[j] == want@[j],
        decreases 8 - i,
    {
        if data[i] != want[i] {
            assert(data@.take(8)[i as int] != magic()[i as int]);
            return Err(StorageError::BadMagic);
        }
        i = i + 1;
    }
    assert(data@.take(8) =~= magic());
    let version = get_le(data, 8);
    if version != FORMAT_VERSION {
        return Err(StorageError::BadVersion(version));
    }
    let payload = bytes_of(data, 16, data.len());
    assert(payload@ =~= data@.skip(16));
    Ok(Some(payload))
}

/// What was written into a main file is what is read from it.
pub proof fn law_main_file_reads_back(payload: Seq<u8>)
    ensures
        main_payload(main_file(payload)) == Ok::<Option<Seq<u8>>, StorageErrV>(Some(payload)),
{
    let data = main_file(payload);
    assert(data.take(8) =~= magic());
    law_number_reads_back(FORMAT_VERSION, magic(), le_bytes(0) + payload);
    assert(magic() + le_bytes(FORMAT_VERSION) + (le_bytes(0) + payload) =~= data);
    assert(data.skip(16) =~= payload);
}

// ---------------------------------------------------------------------------------------------
// The log
// ---------------------------------------------------------------------------------------------
/// The CRC-32 checksum of bytes, as `crc32fast` computes it.
pub uninterp spec fn crc32(b: Seq<u8>) -> u32;

/// `crc32fast::hash` computes the checksum of the bytes it is given, and of nothing else.
pub assume_specification[ crc32fast::hash ](buf: &[u8]) -> (r: u32)
    ensures
        r == crc32(buf@),
;

/// The part of a frame behind its checksum: the length, as 32 bits, and the payload.
pub open spec fn frame_body(payload: Seq<u8>) -> Seq<u8> {
    le_bytes(payload.len() as u32) + payload
}

/// The frame of a payload: the checksum of the body, and the body.
pub open spec fn frame(payload: Seq<u8>) -> Seq<u8> {
    le_bytes(crc32(frame_body(payload))) + frame_body(payload)
}

/// The intact frame at `at`: its payload, and where the next frame starts. There is none where the
/// log ends before the frame does, or where the checksum is not that of the body.
pub open spec fn frame_at(log: Seq<u8>, at: int) -> Option<(Seq<u8>, int)> {
    if at + 8 > log.len() {
        None
    } else {
        let end = at + 8 + le_value(log, at + 4);
        if end > log.len() || crc32(log.subrange(at + 4, end)) != le_value(log, at) {
            None
        } else {
            Some((log.subrange(at + 8, end), end))
        }
    }
}

/// What decoding a payload gives.
pub type Decoding = spec_fn(Seq<u8>) -> Option<StmtV>;

/// `f` decodes as `d` says.
pub open spec fn decodes_by<F: Fn(Vec<u8>) -> Option<Statement>>(f: F, d: Decoding) -> bool {
    forall|b: Vec<u8>, r: Option<Statement>| #[trigger]
        call_ensures(f, (b,), r) ==> ordmap::opt_view(r) == d(b@)
}

/// `f` takes any payload.
pub open spec fn takes_payloads<F: Fn(Vec<u8>) -> Option<Statement>>(f: F) -> bool {
    forall|b: Vec<u8>| call_requires(f, (b,))
}

/// The log from `at` on: the statements of its frames up to the first that is not intact or cannot
/// be decoded, and where that one starts.
pub open spec fn log_from(d: Decoding, log: Seq<u8>, at: int) -> (Seq<StmtV>, int)
    decreases log.len() - at,
{
    match frame_at(log, at) {
        None => (Seq::empty(), at),
        Some((payload, next)) => match d(payload) {
            None => (Seq::empty(), at),
            Some(stmt) => if at < next <= log.len() {
                let rest = log_from(d, log, next);
                (seq![stmt] + rest.0, rest.1)
            } else {
                (seq![stmt], next)
            },
        },
    }
}

/// The frame of a payload.
pub fn encode_frame(payload: &Vec<u8>) -> (r: Vec<u8>)
    ensures
        r@ == frame(payload@),
{
    let mut body: Vec<u8> = Vec::new();
    put_le(&mut body, #[verifier::truncate] (payload.len() as u32));
    put_bytes(&mut body, payload);
    assert(body@ =~= frame_body(payload@));
    let sum = crc32fast::hash(body.as_slice());
    let mut out: Vec<u8> = Vec::new();
    put_le(&mut out, sum);
    put_bytes(&mut out, &body);
    assert(out@ =~= frame(payload@));
    out
}

/// The intact frame at `at`, as its payload and the place behind it.
pub fn decode_frame(log: &Vec<u8>, at: usize) -> (r: Option<(Vec<u8>, usize)>)
    requires
        at <= log.len(),
    ensures
        match r {
            Some((payload, next)) => frame_at(log@, at as int) == Some((payload@, next as int)) && at
                < next <= log.len(),
            None => frame_at(log@, at as int) is None,
        },
{
    if log.len() - at < 8 {
        return None;
    }
    let sum = get_le(log, at);
    let len = get_le(log, at + 4) as usize;
    let start: usize = at + 8;
    if log.len() - start < len {
        return None;
    }
    let end: usize = start + len;
    let body = bytes_of(log, at + 4, end);
    if crc32fast::hash(body.as_slice()) != sum {
        return None;
    }
    Some((bytes_of(log, start, end), end))
}

/// The statements in a log, and how much of it to keep: all up to the first frame that is not intact
/// or cannot be decoded. `decode` decodes a payload.
pub fn read_log<F: Fn(Vec<u8>) -> Option<Statement>>(log: &Vec<u8>, decode: &F) -> (r: (
    Vec<Statement>,
    usize,
))
    requires
        takes_payloads(*decode),
    ensures
        r.1 <= log.len(),
        forall|d: Decoding| #[trigger]
            decodes_by(*decode, d) ==> (ordmap::views(r.0@), r.1 as int) == log_from(d, log@, 0),
{
    let mut stmts: Vec<Statement> = Vec::new();
    let mut at: usize = 0;
    assert(ordmap::views(stmts@) =~= Seq::<StmtV>::empty());
    assert(forall|d: Decoding|
        Seq::<StmtV>::empty() + (#[trigger] log_from(d, log@, 0)).0 =~= log_from(d, log@, 0).0);
    loop
        invariant
            takes_payloads(*decode),
            at <= log.len(),
            forall|d: Decoding| #[trigger]
                decodes_by(*decode, d) ==> log_from(d, log@, 0) == (
                    ordmap::views(stmts@) + log_from(d, log@, at as int).0,
                    log_from(d, log@, at as int).1,
                ),
        ensures
            at <= log.len(),
            forall|d: Decoding| #[trigger]
                decodes_by(*decode, d) ==> log_from(d, log@, 0) == (
                    ordmap::views(stmts@),
                    at as int,
                ),
        decreases log.len() - at,
    {
        let ghost before = ordmap::views(stmts@);
        assert(before + Seq::<StmtV>::empty() =~= before);
        match decode_frame(log, at) {
            None => break,
            Some((payload, next)) => {
                let ghost p = payload@;
                match decode(payload) {
                    None => break,
                    Some(stmt) => {
                        let ghost sv = stmt@;
                        stmts.push(stmt);
                        proof {
                            assert(ordmap::views(stmts@) =~= before.push(sv));
                            assert forall|d: Decoding| #[trigger]
                                decodes_by(*decode, d) implies log_from(d, log@, 0) == (
                                ordmap::views(stmts@) + log_from(d, log@, next as int).0,
                                log_from(d, log@, next as int).1,
                            ) by {
                                let rest = log_from(d, log@, next as int);
                                assert(d(p) == Some(sv));
                                assert(log_from(d, log@, at as int) == (seq![sv] + rest.0, rest.1));
                                assert(before + (seq![sv] + rest.0) =~= before.push(sv) + rest.0);
                            }
                        }
                        at = next;
                    },
                }
            },
        }
    }
    (stmts, at)
}

// ---------------------------------------------------------------------------------------------
// Replay
// ---------------------------------------------------------------------------------------------
/// The store behind a replayed statement: one with a fault changes nothing.
pub open spec fn replayed_one(s: StoreV, stmt: StmtV) -> StoreV {
    if engine::exec_fault(s, stmt) is None {
        engine::store_after(s, stmt)
    } else {
        s
    }
}

/// The store behind the first `n` replayed statements.
pub open spec fn replayed(s: StoreV, stmts: Seq<StmtV>, n: int) -> StoreV
    decreases n,
{
    if n <= 0 {
        s
    } else {
        replayed_one(replayed(s, stmts, n - 1), stmts[n - 1])
    }
}

/// Applies the statements of a log to the store, in order.
pub fn replay(store: &mut Store, stmts: &Vec<Statement>)
    ensures
        final(store)@ == replayed(old(store)@, ordmap::views(stmts@), stmts@.len() as int),
{
    let ghost s = store@;
    let ghost vs = ordmap::views(stmts@);
    let mut i: usize = 0;
    while i < stmts.len()
        invariant
            i <= stmts.len(),
            vs == ordmap::views(stmts@),
            store@ == replayed(s, vs, i as int),
        decreases stmts.len() - i,
    {
        assert(vs[i as int] == stmts@[i as int]@);
        match engine::apply_statement(store, &stmts[i]) {
            Ok(_) => {},
            Err(_) => {},
        }
        i = i + 1;
    }
}

// ---------------------------------------------------------------------------------------------
// The open file
// ---------------------------------------------------------------------------------------------
/// An open persisted store: where its main file and its log are, and how long the log is.
#[derive(Debug, PartialEq, Eq)]
pub struct StoreFile {
    main: String,
    wal: String,
    wal_len: u64,
}

#[verifier::ext_equal]
pub struct FileV {
    pub main: Seq<char>,
    pub wal: Seq<char>,
    pub wal_len: u64,
}

impl View for StoreFile {
    type V = FileV;

    closed spec fn view(&self) -> FileV {
        FileV { main: self.main@, wal: self.wal@, wal_len: self.wal_len }
    }
}

impl StoreFile {
    /// The store whose main file is at `path` and whose log, beside it, has `wal_len` bytes.
    pub fn open(path: &str, wal_len: u64) -> (r: Self)
        ensures
            r@ == (FileV { main: path@, wal: path@ + ".wal"@, wal_len }),
    {
        StoreFile { main: text::owned(path), wal: text::join2(path, ".wal"), wal_len }
    }

    /// The path of the main file.
    pub fn main_path(&self) -> (r: &str)
        ensures
            r@ == self@.main,
    {
        self.main.as_str()
    }

    /// The path of the log.
    pub fn wal_path(&self) -> (r: &str)
        ensures
            r@ == self@.wal,
    {
        self.wal.as_str()
    }

    /// Takes note of `n` bytes that were added to the log.
    pub fn appended(&mut self, n: u64)
        requires
            old(self)@.wal_len + n <= u64::MAX,
        ensures
            final(self)@ == (FileV { wal_len: (old(self)@.wal_len + n) as u64, ..old(self)@ }),
    {
        self.wal_len = self.wal_len + n;
    }

    /// The length of the log.
    pub fn wal_len(&self) -> (r: u64)
        ensures
            r == self@.wal_len,
    {
        self.wal_len
    }

    /// Whether the log has grown past the threshold.
    pub fn needs_checkpoint(&self) -> (r: bool)
        ensures
            r == (self@.wal_len > CHECKPOINT_THRESHOLD),
    {
        self.wal_len > CHECKPOINT_THRESHOLD
    }

    /// Takes note that the main file holds the store and the log is empty.
    pub fn checkpointed(&mut self)
        ensures
            final(self)@ == (FileV { wal_len: 0, ..old(self)@ }),
    {
        self.wal_len = 0;
    }
}

// ---------------------------------------------------------------------------------------------
// Laws
// ---------------------------------------------------------------------------------------------
/// The frames of the first `n` payloads, one behind the other.
pub open spec fn frames(payloads: Seq<Seq<u8>>, n: int) -> Seq<u8>
    decreases n,
{
    if n <= 0 {
        Seq::empty()
    } else {
        frames(payloads, n - 1) + frame(payloads[n - 1])
    }
}

/// The first `n` payloads decode to the statements, and their lengths fit a frame.
pub open spec fn decodable(
    d: Decoding,
    payloads: Seq<Seq<u8>>,
    stmts: Seq<StmtV>,
) -> bool {
    &&& payloads.len() == stmts.len()
    &&& forall|i: int|
        0 <= i < payloads.len() ==> (#[trigger] payloads[i]).len() <= u32::MAX && d(payloads[i])
            == Some(stmts[i])
}

/// A frame is found intact in any log that holds it.
pub proof fn law_frame_reads_back(payload: Seq<u8>, before: Seq<u8>, after: Seq<u8>)
    requires
        payload.len() <= u32::MAX,
    ensures
        frame_at(before + frame(payload) + after, before.len() as int) == Some(
            (payload, (before.len() + frame(payload).len()) as int),
        ),
        frame(payload).len() == 8 + payload.len(),
{
    let log = before + frame(payload) + after;
    let at = before.len() as int;
    let body = frame_body(payload);
    let sum = crc32(body);
    assert(log =~= before + le_bytes(sum) + (body + after));
    law_number_reads_back(sum, before, body + after);
    let len = payload.len() as u32;
    assert(log =~= (before + le_bytes(sum)) + le_bytes(len) + (payload + after));
    law_number_reads_back(len, before + le_bytes(sum), payload + after);
    let end = at + 8 + payload.len();
    assert(log.subrange(at + 4, end) =~= body);
    assert(log.subrange(at + 8, end) =~= payload);
}

/// A frame that was not written to its end is not intact: no part of it is ever read.
pub proof fn law_torn_frame_is_not_read(payload: Seq<u8>, n: int, before: Seq<u8>)
    requires
        payload.len() <= u32::MAX,
        0 <= n < frame(payload).len(),
    ensures
        frame_at(before + frame(payload).take(n), before.len() as int) is None,
{
    let body = frame_body(payload);
    let sum = crc32(body);
    let torn = frame(payload).take(n);
    let log = before + torn;
    let at = before.len() as int;
    if n >= 8 {
        let len = payload.len() as u32;
        let rest = payload.take(n - 8);
        assert(log =~= (before + le_bytes(sum)) + le_bytes(len) + rest);
        law_number_reads_back(len, before + le_bytes(sum), rest);
    }
}

proof fn lemma_log_with_frames(
    d: Decoding,
    payloads: Seq<Seq<u8>>,
    stmts: Seq<StmtV>,
    tail: Seq<u8>,
    i: int,
)
    requires
        decodable(d, payloads, stmts),
        0 <= i <= payloads.len(),
    ensures
        ({
            let n = payloads.len() as int;
            let log = frames(payloads, n) + tail;
            let rest = log_from(d, log, frames(payloads, n).len() as int);
            log_from(d, log, frames(payloads, i).len() as int) == (stmts.skip(i) + rest.0, rest.1)
        }),
    decreases payloads.len() - i,
{
    let n = payloads.len() as int;
    let log = frames(payloads, n) + tail;
    let end = frames(payloads, n).len() as int;
    let rest = log_from(d, log, end);
    if i == n {
        assert(stmts.skip(i) + rest.0 =~= rest.0);
    } else {
        lemma_log_with_frames(d, payloads, stmts, tail, i + 1);
        lemma_frames_from(payloads, i + 1, n);
        let whole = frames(payloads, n);
        let head = frames(payloads, i);
        let f = frame(payloads[i]);
        let after = whole.skip((head + f).len() as int) + tail;
        assert(log == head + f + after) by {
            assert(whole.take((head + f).len() as int) == head + f);
            lemma_split(whole, tail, (head + f).len() as int);
        }
        assert(frame_at(log, head.len() as int) == Some((payloads[i], (head + f).len() as int)))
            by {
            law_frame_reads_back(payloads[i], head, after);
        }
        let next = log_from(d, log, (head + f).len() as int);
        assert(f.len() > 0);
        assert(seq![stmts[i]] + next.0 =~= stmts.skip(i) + rest.0);
    }
}

proof fn lemma_split(whole: Seq<u8>, tail: Seq<u8>, k: int)
    requires
        0 <= k <= whole.len(),
    ensures
        whole + tail == whole.take(k) + (whole.skip(k) + tail),
{
    assert(whole + tail =~= whole.take(k) + (whole.skip(k) + tail));
}

proof fn lemma_frames_from(payloads: Seq<Seq<u8>>, i: int, n: int)
    requires
        0 <= i <= n <= payloads.len(),
    ensures
        frames(payloads, i).len() <= frames(payloads, n).len(),
        frames(payloads, n).take(frames(payloads, i).len() as int) == frames(payloads, i),
    decreases n - i,
{
    if i < n {
        lemma_frames_from(payloads, i, n - 1);
        assert(frames(payloads, n).take(frames(payloads, i).len() as int) =~= frames(
            payloads,
            n - 1,
        ).take(frames(payloads, i).len() as int));
    } else {
        assert(frames(payloads, n).take(frames(payloads, i).len() as int) =~= frames(payloads, i));
    }
}

/// A log is read back as it was written: the statements of its frames, in order, and all of it is
/// kept.
pub proof fn law_log_reads_back(d: Decoding, payloads: Seq<Seq<u8>>, stmts: Seq<StmtV>)
    requires
        decodable(d, payloads, stmts),
    ensures
        ({
            let log = frames(payloads, payloads.len() as int);
            log_from(d, log, 0) == (stmts, log.len() as int)
        }),
{
    let log = frames(payloads, payloads.len() as int);
    lemma_log_with_frames(d, payloads, stmts, Seq::empty(), 0);
    assert(log + Seq::<u8>::empty() =~= log);
    assert(stmts.skip(0) + Seq::<StmtV>::empty() =~= stmts);
}

/// A crash while a frame is written loses that frame and nothing else: the frames before it are read
/// back, and the log is kept up to its start.
pub proof fn law_torn_tail_is_dropped(
    d: Decoding,
    payloads: Seq<Seq<u8>>,
    stmts: Seq<StmtV>,
    last: Seq<u8>,
    n: int,
)
    requires
        decodable(d, payloads, stmts),
        last.len() <= u32::MAX,
        0 <= n < frame(last).len(),
    ensures
        ({
            let whole = frames(payloads, payloads.len() as int);
            log_from(d, whole + frame(last).take(n), 0) == (stmts, whole.len() as int)
        }),
{
    let whole = frames(payloads, payloads.len() as int);
    lemma_log_with_frames(d, payloads, stmts, frame(last).take(n), 0);
    law_torn_frame_is_not_read(last, n, whole);
    assert(stmts.skip(0) + Seq::<StmtV>::empty() =~= stmts);
}

/// The frames of the first payloads do not depend on the last one.
pub proof fn lemma_frames_of_prefix(payloads: Seq<Seq<u8>>, n: int)
    requires
        0 <= n < payloads.len(),
    ensures
        frames(payloads.drop_last(), n) == frames(payloads, n),
    decreases n,
{
    if n > 0 {
        lemma_frames_of_prefix(payloads, n - 1);
    }
}

/// Wherever a log is cut off, what is read back are the statements of the frames that are whole, in
/// order: a prefix of what was written, and the log is kept up to the end of the last of them.
pub proof fn law_cut_log_gives_a_prefix(
    d: Decoding,
    payloads: Seq<Seq<u8>>,
    stmts: Seq<StmtV>,
    cut: int,
)
    requires
        decodable(d, payloads, stmts),
        0 <= cut <= frames(payloads, payloads.len() as int).len(),
    ensures
        exists|i: int|
            0 <= i <= stmts.len() && (#[trigger] frames(payloads, i)).len() <= cut && (i < stmts.len()
                ==> cut < frames(payloads, i + 1).len()) && log_from(
                d,
                frames(payloads, payloads.len() as int).take(cut),
                0,
            ) == (stmts.take(i), frames(payloads, i).len() as int),
    decreases payloads.len(),
{
    let n = payloads.len() as int;
    let whole = frames(payloads, n);
    if cut == whole.len() {
        law_log_reads_back(d, payloads, stmts);
        assert(whole.take(cut) =~= whole);
        assert(stmts.take(n) =~= stmts);
        assert(frames(payloads, n).len() <= cut);
    } else {
        let fewer = payloads.drop_last();
        let before = stmts.drop_last();
        let head = frames(payloads, n - 1);
        lemma_frames_of_prefix(payloads, n - 1);
        assert forall|i: int| 0 <= i < fewer.len() implies (#[trigger] fewer[i]).len() <= u32::MAX
            && d(fewer[i]) == Some(before[i]) by {
            assert(fewer[i] == payloads[i]);
        }
        if cut >= head.len() {
            let last = payloads[n - 1];
            let torn = cut - head.len();
            law_torn_tail_is_dropped(d, fewer, before, last, torn);
            assert(whole.take(cut) =~= head + frame(last).take(torn));
            assert(stmts.take(n - 1) =~= before);
            assert(frames(payloads, n - 1).len() <= cut);
        } else {
            law_cut_log_gives_a_prefix(d, fewer, before, cut);
            let i = choose|i: int|
                0 <= i <= before.len() && (#[trigger] frames(fewer, i)).len() <= cut && (i
                    < before.len() ==> cut < frames(fewer, i + 1).len()) && log_from(
                    d,
                    frames(fewer, fewer.len() as int).take(cut),
                    0,
                ) == (before.take(i), frames(fewer, i).len() as int);
            lemma_frames_of_prefix(payloads, i);
            if i < n - 1 {
                lemma_frames_of_prefix(payloads, i + 1);
            }
            assert(whole.take(cut) =~= head.take(cut));
            assert(stmts.take(i) =~= before.take(i));
            assert(frames(payloads, i).len() <= cut);
        }
    }
}

/// Nothing is read behind the first frame that is not intact, whatever stands there: the frames
/// before it are read back, and the log is kept up to it.
pub proof fn law_reading_stops_at_a_broken_frame(
    d: Decoding,
    payloads: Seq<Seq<u8>>,
    stmts: Seq<StmtV>,
    tail: Seq<u8>,
)
    requires
        decodable(d, payloads, stmts),
        ({
            let whole = frames(payloads, payloads.len() as int);
            frame_at(whole + tail, whole.len() as int) is None
        }),
    ensures
        ({
            let whole = frames(payloads, payloads.len() as int);
            log_from(d, whole + tail, 0) == (stmts, whole.len() as int)
        }),
{
    lemma_log_with_frames(d, payloads, stmts, tail, 0);
    assert(stmts.skip(0) + Seq::<StmtV>::empty() =~= stmts);
}

proof fn lemma_kept_log(d: Decoding, log: Seq<u8>, at: int)
    requires
        0 <= at <= log.len(),
    ensures
        ({
            let r = log_from(d, log, at);
            let kept = log.take(r.1);
            &&& at <= r.1 <= log.len()
            &&& log_from(d, kept, at) == r
        }),
    decreases log.len() - at,
{
    let r = log_from(d, log, at);
    match frame_at(log, at) {
        None => {
            assert(frame_at(log.take(at), at) is None);
        },
        Some((payload, next)) => match d(payload) {
            None => {
                assert(frame_at(log.take(at), at) is None);
            },
            Some(stmt) => {
                assert(at < next <= log.len());
                lemma_kept_log(d, log, next);
                let kept = log.take(r.1);
                assert(kept.subrange(at + 4, next) =~= log.subrange(at + 4, next));
                assert(kept.subrange(at + 8, next) =~= log.subrange(at + 8, next));
                assert(frame_at(kept, at) == frame_at(log, at));
            },
        },
    }
}

/// Reading is stable: the part of a log that is kept gives the same statements, and all of it is
/// kept again.
pub proof fn law_kept_log_is_intact(d: Decoding, log: Seq<u8>)
    ensures
        ({
            let r = log_from(d, log, 0);
            let kept = log.take(r.1);
            log_from(d, kept, 0) == (r.0, kept.len() as int)
        }),
{
    lemma_kept_log(d, log, 0);
}

/// The layout of a main file, byte by byte: `NQLITE01`, the version 1 in four bytes, four zeros, and
/// then the encoded store.
pub proof fn law_main_file_layout(payload: Seq<u8>)
    ensures
        main_file(payload) == seq![
            0x4Eu8,
            0x51u8,
            0x4Cu8,
            0x49u8,
            0x54u8,
            0x45u8,
            0x30u8,
            0x31u8,
            1u8,
            0u8,
            0u8,
            0u8,
            0u8,
            0u8,
            0u8,
            0u8,
        ] + payload,
{
    assert(le_bytes(1) =~= seq![1u8, 0u8, 0u8, 0u8]);
    assert(le_bytes(0) =~= seq![0u8, 0u8, 0u8, 0u8]);
    assert(main_file(payload) =~= seq![
        0x4Eu8,
        0x51u8,
        0x4Cu8,
        0x49u8,
        0x54u8,
        0x45u8,
        0x30u8,
        0x31u8,
        1u8,
        0u8,
        0u8,
        0u8,
        0u8,
        0u8,
        0u8,
        0u8,
    ] + payload);
}

/// What a main file is taken for. Fewer than 16 bytes are no store yet. Else the first eight bytes must
/// be `NQLITE01`, and the next four the version 1, the least significant byte first; what stands in the
/// four behind them does not matter, and the rest is the encoded store.
pub proof fn law_main_file_is_told_by_its_header(data: Seq<u8>)
    ensures
        data.len() < 16 ==> main_payload(data) == Ok::<Option<Seq<u8>>, StorageErrV>(None),
        data.len() >= 16 ==> {
            let named = data[0] == 0x4E && data[1] == 0x51 && data[2] == 0x4C && data[3] == 0x49
                && data[4] == 0x54 && data[5] == 0x45 && data[6] == 0x30 && data[7] == 0x31;
            let version = data[8] + 256 * data[9] + 65_536 * data[10] + 16_777_216 * data[11];
            &&& !named ==> main_payload(data) == Err::<Option<Seq<u8>>, StorageErrV>(
                StorageErrV::BadMagic,
            )
            &&& named && version != 1 ==> main_payload(data) == Err::<Option<Seq<u8>>, StorageErrV>(
                StorageErrV::BadVersion(version as u32),
            )
            &&& named && version == 1 ==> main_payload(data) == Ok::<Option<Seq<u8>>, StorageErrV>(
                Some(data.skip(16)),
            )
        },
{
    if data.len() >= 16 {
        let head = data.take(8);
        if data[0] == 0x4E && data[1] == 0x51 && data[2] == 0x4C && data[3] == 0x49 && data[4]
            == 0x54 && data[5] == 0x45 && data[6] == 0x30 && data[7] == 0x31 {
            assert(head =~= magic());
        } else if head == magic() {
            assert(head[0] == data[0] && head[1] == data[1] && head[2] == data[2] && head[3]
                == data[3] && head[4] == data[4] && head[5] == data[5] && head[6] == data[6]
                && head[7] == data[7]);
        }
    }
}

/// The layout of a frame: four bytes of checksum, four bytes of length, both with the least significant
/// byte first, and the payload. The checksum is over all that stands behind it.
pub proof fn law_frame_layout(payload: Seq<u8>)
    requires
        payload.len() <= u32::MAX,
    ensures
        ({
            let f = frame(payload);
            &&& f.len() == payload.len() + 8
            &&& f.skip(8) == payload
            &&& f[4] + 256 * f[5] + 65_536 * f[6] + 16_777_216 * f[7] == payload.len()
            &&& f[0] + 256 * f[1] + 65_536 * f[2] + 16_777_216 * f[3] == crc32(f.skip(4))
        }),
{
    let f = frame(payload);
    let n = payload.len() as u32;
    let none = Seq::<u8>::empty();
    assert(f.skip(8) =~= payload);
    assert(f.skip(4) =~= frame_body(payload));
    let c = crc32(frame_body(payload));
    law_number_reads_back(c, none, frame_body(payload));
    assert(none + le_bytes(c) + frame_body(payload) =~= f);
    law_number_reads_back(n, le_bytes(c), payload);
    assert(le_bytes(c) + le_bytes(n) + payload =~= f);
}

/// A log is to be folded into the main file once it is longer than 1 MiB.
pub proof fn law_checkpoint_threshold()
    ensures
        CHECKPOINT_THRESHOLD == 1024 * 1024,
{
}

/// Replaying applies the statements in their order; one that fails changes nothing and stops nothing.
pub proof fn law_replay_step(s: StoreV, stmts: Seq<StmtV>, stmt: StmtV)
    ensures
        ({
            let n = stmts.len() as int;
            let before = replayed(s, stmts, n);
            let after = replayed(s, stmts.push(stmt), n + 1);
            &&& engine::exec_fault(before, stmt) is None ==> after == engine::store_after(before, stmt)
            &&& engine::exec_fault(before, stmt) is Some ==> after == before
        }),
{
    lemma_replayed_prefix(s, stmts, stmt, stmts.len() as int);
}

proof fn lemma_replayed_prefix(s: StoreV, stmts: Seq<StmtV>, stmt: StmtV, n: int)
    requires
        0 <= n <= stmts.len(),
    ensures
        replayed(s, stmts.push(stmt), n) == replayed(s, stmts, n),
    decreases n,
{
    if n > 0 {
        lemma_replayed_prefix(s, stmts, stmt, n - 1);
    }
}

/// What an error of storage says.
pub proof fn law_storage_errors_say(m: Seq<char>, v: u32, o: u64)
    ensures
        storage_error_text(StorageErrV::Io(m)) == "io error: "@ + m,
        storage_error_text(StorageErrV::Codec(m)) == "serialization error: "@ + m,
        storage_error_text(StorageErrV::BadVersion(v)) == "unsupported format version "@
            + text::dec_text(v as nat) + " (expected "@ + text::dec_text(1) + ")"@,
        storage_error_text(StorageErrV::BadMagic) == "bad magic header"@,
        storage_error_text(StorageErrV::TornFrame(o)) == "torn/corrupt WAL frame at offset "@
            + text::dec_text(o as nat) + " (truncated)"@,
{
}

} // verus!
