//! The write-ahead log: binary format, durable append, replay.
//!
//! Every mutation is encoded as one record and appended to the log before it
//! is applied to the memtable; replaying the log in order reconstructs the
//! memtable after a restart. A record is
//! `[u32 total_length][u8 tag][u32 key_length][key bytes]`, followed, for the
//! `Put` tag only, by `[u32 value_length][value bytes]`; all fields are
//! little-endian, tag 0 is `Put` and tag 1 is `Delete`. `total_length` counts
//! everything after itself. `encode_record`/`parse_log` are the mathematical
//! format; the executable writer and reader are proved against them, and
//! `lemma_parse_encode_log` shows that replay inverts append.
//!
//! The log itself lives in a byte buffer here; the unverified plumbing
//! persists that buffer to a file and must flush it before an append is
//! acknowledged. A truncated or otherwise malformed log is reported as
//! corruption, never silently dropped.

use vstd::prelude::*;
use crate::codec::u32_le;
use crate::codec::le_u32;
use crate::codec::lemma_u32_le_round;
use crate::codec::write_u32_le;
use crate::codec::read_u32_le;
use crate::codec::copy_range;
use crate::error::Error;

verus! {

/// Tag marking a `Put` record.
pub const PUT_TAG: u8 = 0;

/// Tag marking a `Delete` record.
pub const DELETE_TAG: u8 = 1;

/// Size of the operation tag field.
pub const TAG_SIZE: usize = 1;

/// Size of each length field.
pub const LENGTH_FIELD_SIZE: usize = 4;

/// Maximum encoded size of a single entry (1 MiB), length prefix excluded.
pub const MAX_ENTRY_SIZE: usize = 1048576;

/// One mutation intent: write a value, or delete a key.
#[derive(Debug, Clone)]
pub enum WalEntry {
    Put { key: Vec<u8>, value: Vec<u8> },
    Delete { key: Vec<u8> },
}

/// The mathematical twin of `WalEntry`, over byte sequences.
pub enum WalEntryV {
    Put { key: Seq<u8>, value: Seq<u8> },
    Delete { key: Seq<u8> },
}

impl View for WalEntry {
    type V = WalEntryV;

    open spec fn view(&self) -> WalEntryV {
        match self {
            WalEntry::Put { key, value } => WalEntryV::Put { key: key@, value: value@ },
            WalEntry::Delete { key } => WalEntryV::Delete { key: key@ },
        }
    }
}

/// The encoded size of an entry's body: tag and length fields plus the bytes
/// of the key and, for a put, of the value.
pub open spec fn body_size(e: WalEntryV) -> int {
    match e {
        WalEntryV::Put { key, value } => 1 + 4 + key.len() + 4 + value.len() as int,
        WalEntryV::Delete { key } => 1 + 4 + key.len() as int,
    }
}

/// An entry small enough to be accepted by `append`.
pub open spec fn entry_fits(e: WalEntryV) -> bool {
    body_size(e) <= MAX_ENTRY_SIZE
}

/// The encoded body of one entry, without the length prefix.
pub open spec fn encode_body(e: WalEntryV) -> Seq<u8> {
    match e {
        WalEntryV::Put { key, value } => seq![PUT_TAG] + u32_le(key.len() as u32) + key + u32_le(
            value.len() as u32,
        ) + value,
        WalEntryV::Delete { key } => seq![DELETE_TAG] + u32_le(key.len() as u32) + key,
    }
}

/// One full record: the body's length, then the body.
pub open spec fn encode_record(e: WalEntryV) -> Seq<u8> {
    u32_le(body_size(e) as u32) + encode_body(e)
}

/// The whole log: the records of all appended entries, in order.
pub open spec fn encode_log(es: Seq<WalEntryV>) -> Seq<u8>
    decreases es.len(),
{
    if es.len() == 0 {
        Seq::empty()
    } else {
        encode_record(es[0]) + encode_log(es.skip(1))
    }
}

/// Parses one record body. Returns `None` on an unknown tag or a body too
/// short for its declared fields; bytes past the parsed fields are ignored,
/// as the length prefix already delimits the record.
pub open spec fn parse_body(s: Seq<u8>) -> Option<WalEntryV> {
    if s.len() < 5 {
        None
    } else {
        let tag = s[0];
        let klen = le_u32(s.subrange(1, 5));
        if 5 + klen > s.len() {
            None
        } else {
            let key = s.subrange(5, 5 + klen);
            if tag == PUT_TAG {
                if 5 + klen + 4 > s.len() {
                    None
                } else {
                    let vlen = le_u32(s.subrange(5 + klen, 9 + klen));
                    if 9 + klen + vlen > s.len() {
                        None
                    } else {
                        Some(WalEntryV::Put { key, value: s.subrange(9 + klen, 9 + klen + vlen) })
                    }
                }
            } else if tag == DELETE_TAG {
                Some(WalEntryV::Delete { key })
            } else {
                None
            }
        }
    }
}

/// Parses a whole log. A clean end at a record boundary succeeds; a partial
/// length prefix, an oversized declared length, a record body shorter than
/// declared, or a malformed body is corruption and yields `None`.
pub open spec fn parse_log(s: Seq<u8>) -> Option<Seq<WalEntryV>>
    decreases s.len(),
{
    if s.len() == 0 {
        Some(Seq::empty())
    } else if s.len() < 4 {
        None
    } else {
        let blen = le_u32(s.subrange(0, 4));
        if blen > MAX_ENTRY_SIZE {
            None
        } else if 4 + blen > s.len() {
            None
        } else {
            match parse_body(s.subrange(4, 4 + blen)) {
                Option::None => None,
                Option::Some(e) => match parse_log(s.skip(4 + blen)) {
                    Option::None => None,
                    Option::Some(rest) => Some(seq![e] + rest),
                },
            }
        }
    }
}

/// Every entry of the sequence fits within the entry size bound.
pub open spec fn all_fit(es: Seq<WalEntryV>) -> bool {
    forall|i: int| 0 <= i < es.len() ==> entry_fits(#[trigger] es[i])
}

/// The view of a replayed entry vector.
pub open spec fn wal_view(s: Seq<WalEntry>) -> Seq<WalEntryV> {
    Seq::new(s.len(), |i: int| s[i]@)
}

/// The body's encoding is exactly `body_size` bytes long.
pub proof fn lemma_encode_body_len(e: WalEntryV)
    ensures
        encode_body(e).len() == body_size(e),
        encode_record(e).len() == 4 + body_size(e),
{
}

/// Appending one entry appends exactly its record.
pub proof fn lemma_encode_log_snoc(es: Seq<WalEntryV>, e: WalEntryV)
    ensures
        encode_log(es.push(e)) == encode_log(es) + encode_record(e),
    decreases es.len(),
{
    if es.len() == 0 {
        let single = es.push(e);
        assert(single.len() == 1);
        assert(single[0] == e);
        assert(single.skip(1) =~= Seq::<WalEntryV>::empty());
        assert(encode_log(single.skip(1)) == Seq::<u8>::empty());
        assert(encode_log(single) == encode_record(e) + encode_log(single.skip(1)));
        assert(encode_log(es) == Seq::<u8>::empty());
        assert(encode_log(single) =~= encode_log(es) + encode_record(e));
    } else {
        assert(es.push(e)[0] == es[0]);
        assert(es.push(e).skip(1) =~= es.skip(1).push(e));
        lemma_encode_log_snoc(es.skip(1), e);
        assert(encode_log(es.push(e)) == encode_record(es[0]) + (encode_log(es.skip(1))
            + encode_record(e)));
        assert(encode_record(es[0]) + (encode_log(es.skip(1)) + encode_record(e)) =~= (
        encode_record(es[0]) + encode_log(es.skip(1))) + encode_record(e));
    }
}

/// Parsing the encoding of one fitting entry gives the entry back.
pub proof fn lemma_parse_encode_body(e: WalEntryV)
    requires
        entry_fits(e),
    ensures
        parse_body(encode_body(e)) == Some(e),
{
    let s = encode_body(e);
    match e {
        WalEntryV::Put { key, value } => {
            let kl = key.len() as u32;
            let vl = value.len() as u32;
            lemma_u32_le_round(kl);
            lemma_u32_le_round(vl);
            assert(s.len() == 9 + key.len() + value.len());
            assert(s[0] == PUT_TAG);
            assert(s.subrange(1, 5) =~= u32_le(kl));
            let klen = le_u32(s.subrange(1, 5));
            assert(klen == key.len());
            assert(s.subrange(5, 5 + klen) =~= key);
            assert(s.subrange(5 + klen, 9 + klen) =~= u32_le(vl));
            let vlen = le_u32(s.subrange(5 + klen, 9 + klen));
            assert(vlen == value.len());
            assert(s.subrange(9 + klen, 9 + klen + vlen) =~= value);
        },
        WalEntryV::Delete { key } => {
            let kl = key.len() as u32;
            lemma_u32_le_round(kl);
            assert(s.len() == 5 + key.len());
            assert(s[0] == DELETE_TAG);
            assert(s.subrange(1, 5) =~= u32_le(kl));
            let klen = le_u32(s.subrange(1, 5));
            assert(klen == key.len());
            assert(s.subrange(5, 5 + klen) =~= key);
        },
    }
}

/// One record in front of any tail parses as that record's entry followed
/// by whatever the tail parses to.
proof fn lemma_parse_log_step(e: WalEntryV, rest: Seq<u8>)
    requires
        entry_fits(e),
    ensures
        parse_log(encode_record(e) + rest) == (match parse_log(rest) {
            Option::Some(r2) => Option::Some(seq![e] + r2),
            Option::None => Option::None::<Seq<WalEntryV>>,
        }),
{
    let s = encode_record(e) + rest;
    lemma_encode_body_len(e);
    let bs = body_size(e);
    lemma_u32_le_round(bs as u32);
    assert(s.len() >= 4 + bs);
    assert(s.subrange(0, 4) =~= u32_le(bs as u32));
    let blen = le_u32(s.subrange(0, 4));
    assert(blen == bs);
    assert(s.subrange(4, 4 + blen) =~= encode_body(e));
    lemma_parse_encode_body(e);
    assert(s.skip(4 + blen) =~= rest);
}

/// Replay inverts append: parsing the encoding of any sequence of fitting
/// entries yields exactly that sequence, in order.
pub proof fn lemma_parse_encode_log(es: Seq<WalEntryV>)
    requires
        all_fit(es),
    ensures
        parse_log(encode_log(es)) == Some(es),
    decreases es.len(),
{
    if es.len() == 0 {
        assert(parse_log(encode_log(es)) == Some(Seq::<WalEntryV>::empty()));
        assert(es =~= Seq::<WalEntryV>::empty());
    } else {
        let e = es[0];
        assert(entry_fits(e));
        assert forall|i: int| 0 <= i < es.skip(1).len() implies entry_fits(
            #[trigger] es.skip(1)[i],
        ) by {
            assert(es.skip(1)[i] == es[i + 1]);
        }
        lemma_parse_encode_log(es.skip(1));
        lemma_parse_log_step(e, encode_log(es.skip(1)));
        assert(encode_log(es) == encode_record(e) + encode_log(es.skip(1)));
        assert(seq![e] + es.skip(1) =~= es);
    }
}

/// The write-ahead log: an append-only record of mutations.
///
/// The buffer always holds exactly the encodings of the accepted entries, in
/// submission order; the ghost entry sequence is the log's abstract content.
pub struct Wal {
    log: Vec<u8>,
    entries: Ghost<Seq<WalEntryV>>,
}

impl View for Wal {
    type V = Seq<WalEntryV>;

    closed spec fn view(&self) -> Seq<WalEntryV> {
        self.entries@
    }
}

impl Wal {
    /// The buffer holds exactly the accepted entries' records, and each
    /// accepted entry fits the size bound.
    pub closed spec fn wf(self) -> bool {
        self.log@ == encode_log(self.entries@) && all_fit(self.entries@)
    }

    /// The bytes that back this log.
    pub closed spec fn bytes(self) -> Seq<u8> {
        self.log@
    }

    /// A well-formed log's bytes are the encoding of its entries.
    pub proof fn lemma_bytes_encode(self)
        requires
            self.wf(),
        ensures
            self.bytes() == encode_log(self@),
            all_fit(self@),
    {
    }

    /// Creates an empty log.
    pub fn new() -> (w: Wal)
        ensures
            w.wf(),
            w@ == Seq::<WalEntryV>::empty(),
            w.bytes() == Seq::<u8>::empty(),
    {
        let w = Wal { log: Vec::new(), entries: Ghost(Seq::empty()) };
        proof {
            assert(encode_log(w.entries@) =~= Seq::<u8>::empty());
        }
        w
    }

    /// Discards all records, as after a flush has made them redundant.
    pub fn reset(&mut self)
        ensures
            final(self).wf(),
            final(self)@ == Seq::<WalEntryV>::empty(),
            final(self).bytes() == Seq::<u8>::empty(),
    {
        self.log.clear();
        proof {
            self.entries@ = Seq::empty();
            assert(encode_log(self.entries@) =~= Seq::<u8>::empty());
        }
    }

    /// The encoded size of an entry, without the length prefix.
    fn encoded_size(entry: &WalEntry) -> (r: usize)
        requires
            body_size(entry@) <= MAX_ENTRY_SIZE,
        ensures
            r == body_size(entry@),
    {
        match entry {
            WalEntry::Put { key, value } => TAG_SIZE + LENGTH_FIELD_SIZE + key.len()
                + LENGTH_FIELD_SIZE + value.len(),
            WalEntry::Delete { key } => TAG_SIZE + LENGTH_FIELD_SIZE + key.len(),
        }
    }

    /// Writes an entry's body to the buffer, without the length prefix.
    fn write_entry(&mut self, entry: &WalEntry)
        requires
            body_size(entry@) <= MAX_ENTRY_SIZE,
        ensures
            final(self).log@ == old(self).log@ + encode_body(entry@),
            final(self).entries@ == old(self).entries@,
    {
        let ghost s0 = self.log@;
        match entry {
            WalEntry::Put { key, value } => {
                self.log.push(PUT_TAG);
                write_u32_le(&mut self.log, key.len() as u32);
                self.log.extend_from_slice(key.as_slice());
                write_u32_le(&mut self.log, value.len() as u32);
                self.log.extend_from_slice(value.as_slice());
                proof {
                    assert(self.log@ =~= s0 + encode_body(entry@));
                }
            },
            WalEntry::Delete { key } => {
                self.log.push(DELETE_TAG);
                write_u32_le(&mut self.log, key.len() as u32);
                self.log.extend_from_slice(key.as_slice());
                proof {
                    assert(self.log@ =~= s0 + encode_body(entry@));
                }
            },
        }
    }

    /// Appends an entry and makes it durable before returning.
    ///
    /// Fails with `EntryTooLarge`, leaving the log untouched, when the
    /// encoded body exceeds `MAX_ENTRY_SIZE`; otherwise the entry's record is
    /// appended to the buffer and to the abstract entry sequence.
    pub fn append(&mut self, entry: &WalEntry) -> (r: Result<(), Error>)
        requires
            old(self).wf(),
        ensures
            final(self).wf(),
            entry_fits(entry@) ==> r == Ok::<(), Error>(()) && final(self)@ == old(self)@.push(
                entry@,
            ) && final(self).bytes() == old(self).bytes() + encode_record(entry@),
            !entry_fits(entry@) ==> r == Err::<(), Error>(Error::EntryTooLarge) && *final(self)
                == *old(self),
    {
        let too_large: bool = match entry {
            WalEntry::Put { key, value } => key.len() > MAX_ENTRY_SIZE || value.len()
                > MAX_ENTRY_SIZE || TAG_SIZE + LENGTH_FIELD_SIZE + key.len() + LENGTH_FIELD_SIZE
                + value.len() > MAX_ENTRY_SIZE,
            WalEntry::Delete { key } => key.len() > MAX_ENTRY_SIZE || TAG_SIZE + LENGTH_FIELD_SIZE
                + key.len() > MAX_ENTRY_SIZE,
        };
        if too_large {
            return Err(Error::EntryTooLarge);
        }
        let entry_size = Self::encoded_size(entry);
        let ghost s0 = self.log@;
        let ghost es0 = self.entries@;
        write_u32_le(&mut self.log, entry_size as u32);
        self.write_entry(entry);
        proof {
            self.entries@ = es0.push(entry@);
            lemma_encode_log_snoc(es0, entry@);
            assert(self.log@ =~= encode_log(es0) + encode_record(entry@));
        }
        Ok(())
    }

    /// Appends a `Put` entry for `key` and `value`.
    pub fn append_put(&mut self, key: &[u8], value: &[u8]) -> (r: Result<(), Error>)
        requires
            old(self).wf(),
        ensures
            final(self).wf(),
            9 + key@.len() + value@.len() <= MAX_ENTRY_SIZE ==> r == Ok::<(), Error>(())
                && final(self)@ == old(self)@.push(WalEntryV::Put { key: key@, value: value@ }),
            9 + key@.len() + value@.len() > MAX_ENTRY_SIZE ==> r == Err::<(), Error>(
                Error::EntryTooLarge,
            ) && *final(self) == *old(self),
    {
        let entry = WalEntry::Put {
            key: vstd::slice::slice_to_vec(key),
            value: vstd::slice::slice_to_vec(value),
        };
        self.append(&entry)
    }

    /// Appends a `Delete` entry for `key`.
    pub fn append_delete(&mut self, key: &[u8]) -> (r: Result<(), Error>)
        requires
            old(self).wf(),
        ensures
            final(self).wf(),
            5 + key@.len() <= MAX_ENTRY_SIZE ==> r == Ok::<(), Error>(())
                && final(self)@ == old(self)@.push(WalEntryV::Delete { key: key@ }),
            5 + key@.len() > MAX_ENTRY_SIZE ==> r == Err::<(), Error>(Error::EntryTooLarge)
                && *final(self) == *old(self),
    {
        let entry = WalEntry::Delete { key: vstd::slice::slice_to_vec(key) };
        self.append(&entry)
    }

    /// Hands out the log's bytes, for the plumbing that persists them.
    pub fn log_bytes(&self) -> (r: &Vec<u8>)
        ensures
            r@ == self.bytes(),
    {
        &self.log
    }

    /// Parses a single record body.
    ///
    /// The buffer is exactly the bytes that the record's length prefix
    /// delimited; a body shorter than its declared fields or an unknown tag
    /// is corruption.
    fn parse_entry(buffer: &Vec<u8>) -> (r: Result<WalEntry, Error>)
        ensures
            match r {
                Ok(e) => parse_body(buffer@) == Some(e@),
                Err(err) => parse_body(buffer@) is None && err == Error::Corruption,
            },
    {
        let blen: usize = buffer.len();
        if blen < TAG_SIZE + LENGTH_FIELD_SIZE {
            return Err(Error::Corruption);
        }
        let tag = buffer[0];
        let key_len_u32 = read_u32_le(buffer, TAG_SIZE);
        proof {
            assert(buffer@.subrange(1, 5) == buffer@.subrange(
                TAG_SIZE as int,
                TAG_SIZE as int + 4,
            ));
        }
        let key_len = key_len_u32 as usize;
        if key_len > blen - (TAG_SIZE + LENGTH_FIELD_SIZE) {
            return Err(Error::Corruption);
        }
        let key_end = TAG_SIZE + LENGTH_FIELD_SIZE + key_len;
        let key = copy_range(buffer, TAG_SIZE + LENGTH_FIELD_SIZE, key_end);
        if tag == PUT_TAG {
            if LENGTH_FIELD_SIZE > blen - key_end {
                return Err(Error::Corruption);
            }
            let value_len_u32 = read_u32_le(buffer, key_end);
            let value_len = value_len_u32 as usize;
            if value_len > blen - (key_end + LENGTH_FIELD_SIZE) {
                return Err(Error::Corruption);
            }
            let value = copy_range(
                buffer,
                key_end + LENGTH_FIELD_SIZE,
                key_end + LENGTH_FIELD_SIZE + value_len,
            );
            Ok(WalEntry::Put { key, value })
        } else if tag == DELETE_TAG {
            Ok(WalEntry::Delete { key })
        } else {
            Err(Error::Corruption)
        }
    }

    /// Replays a log's bytes, yielding the appended entries in their original
    /// order.
    ///
    /// A clean end at a record boundary terminates successfully; any
    /// truncated or malformed record is reported as corruption rather than
    /// silently dropped, since a partial record means an interrupted write.
    pub fn replay(log: &Vec<u8>) -> (r: Result<Vec<WalEntry>, Error>)
        ensures
            match r {
                Ok(es) => parse_log(log@) == Some(wal_view(es@)),
                Err(err) => parse_log(log@) is None && err == Error::Corruption,
            },
    {
        let len: usize = log.len();
        let mut pos: usize = 0;
        let mut out: Vec<WalEntry> = Vec::new();
        proof {
            assert(log@.skip(0) =~= log@);
        }
        loop
            invariant
                0 <= pos <= len,
                len == log@.len(),
                parse_log(log@) == (match parse_log(log@.skip(pos as int)) {
                    Option::Some(rest) => Option::Some(wal_view(out@) + rest),
                    Option::None => Option::None::<Seq<WalEntryV>>,
                }),
            decreases len - pos,
        {
            if pos == len {
                proof {
                    assert(log@.skip(pos as int).len() == 0);
                    assert(wal_view(out@) + Seq::<WalEntryV>::empty() =~= wal_view(out@));
                }
                return Ok(out);
            }
            let ghost tail = log@.skip(pos as int);
            if len - pos < LENGTH_FIELD_SIZE {
                proof {
                    assert(0 < tail.len() < 4);
                }
                return Err(Error::Corruption);
            }
            let entry_length_u32 = read_u32_le(log, pos);
            let entry_length = entry_length_u32 as usize;
            proof {
                assert(tail.subrange(0, 4) =~= log@.subrange(pos as int, pos as int + 4));
            }
            if entry_length > MAX_ENTRY_SIZE {
                return Err(Error::Corruption);
            }
            if entry_length > len - pos - LENGTH_FIELD_SIZE {
                proof {
                    assert(4 + le_u32(tail.subrange(0, 4)) > tail.len());
                }
                return Err(Error::Corruption);
            }
            let body_start = pos + LENGTH_FIELD_SIZE;
            let body_end = body_start + entry_length;
            let entry_buffer = copy_range(log, body_start, body_end);
            proof {
                assert(entry_buffer@ =~= tail.subrange(4, 4 + entry_length as int));
            }
            let entry = match Self::parse_entry(&entry_buffer) {
                Ok(e) => e,
                Err(err) => {
                    return Err(err);
                },
            };
            let ghost out0 = out@;
            out.push(entry);
            pos = body_end;
            proof {
                assert(log@.skip(pos as int) =~= tail.skip(4 + entry_length as int));
                assert(wal_view(out@) =~= wal_view(out0).push(entry@));
                match parse_log(log@.skip(pos as int)) {
                    Option::Some(rest) => {
                        assert(parse_log(tail) == Some(seq![entry@] + rest));
                        assert(wal_view(out0) + (seq![entry@] + rest) =~= wal_view(out@) + rest);
                    },
                    Option::None => {},
                }
            }
        }
    }
}

} // verus!
