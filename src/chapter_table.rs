//! The chapter directory: an ordered table of chapter records and its
//! on-disk block.
//!
//! Block layout, all integers little-endian: `u32` length of the whole block
//! (this field included; 0 stands for an empty directory with nothing after
//! it), `u16` chapter count, then for each chapter in order: `u8` length of
//! the name in bytes, the name in UTF-8, `u64` byte offset, `u64` byte length,
//! `u16` page count.
use vstd::prelude::*;
use vstd::slice::slice_to_vec;
use vstd::utf8::{
    decode_utf8,
    decode_utf8_encode_utf8,
    encode_utf8,
    encode_utf8_decode_utf8,
    encode_utf8_valid_utf8,
    valid_utf8,
};

use crate::endian::{
    le_bytes,
    le_value,
    lemma_le_bytes_len,
    lemma_le_round_trip,
    lemma_pow256_values,
};
use crate::buffer_reader::BufferReader;
use crate::buffer_writer::BufferWriter;
use crate::error::CodecError;

verus! {

/// Largest number of bytes a chapter name may take in UTF-8.
pub const NAME_MAX_BYTES: usize = 255;

/// Largest number of chapters the count field can hold.
pub const CHAPTER_COUNT_MAX: usize = 0xffff;

/// Bytes of a record besides its name: name length, offset, length, pages.
pub const CHAPTER_HEADER_BYTE_SIZE: usize = 19;

/// What a chapter record holds.
pub struct ChapterView {
    pub name: Seq<char>,
    pub byte_offset: u64,
    pub byte_length: u64,
    pub page_count: u16,
}

/// A record whose numbers are not known yet.
pub open spec fn placeholder(name: Seq<char>) -> ChapterView {
    ChapterView { name, byte_offset: 0, byte_length: 0, page_count: 0 }
}

pub open spec fn name_bytes(e: ChapterView) -> Seq<u8> {
    encode_utf8(e.name)
}

pub open spec fn entry_valid(e: ChapterView) -> bool {
    name_bytes(e).len() <= NAME_MAX_BYTES
}

/// A directory that the block layout can hold.
pub open spec fn directory_valid(d: Seq<ChapterView>) -> bool {
    &&& d.len() <= CHAPTER_COUNT_MAX
    &&& forall|i: int| 0 <= i < d.len() ==> entry_valid(#[trigger] d[i])
}

/// Size of one record in the block.
pub open spec fn entry_size(e: ChapterView) -> nat {
    CHAPTER_HEADER_BYTE_SIZE as nat + name_bytes(e).len()
}

pub open spec fn entries_size(d: Seq<ChapterView>) -> nat
    decreases d.len(),
{
    if d.len() == 0 {
        0
    } else {
        entry_size(d[0]) + entries_size(d.drop_first())
    }
}

/// Size of the whole block: length field, count field and the records.
pub open spec fn block_size(d: Seq<ChapterView>) -> nat {
    4 + 2 + entries_size(d)
}

pub open spec fn encode_entry(e: ChapterView) -> Seq<u8> {
    le_bytes(name_bytes(e).len(), 1) + name_bytes(e) + le_bytes(e.byte_offset as nat, 8) + le_bytes(
        e.byte_length as nat,
        8,
    ) + le_bytes(e.page_count as nat, 2)
}

pub open spec fn encode_entries(d: Seq<ChapterView>) -> Seq<u8>
    decreases d.len(),
{
    if d.len() == 0 {
        seq![]
    } else {
        encode_entry(d[0]) + encode_entries(d.drop_first())
    }
}

/// The block that stores `d`.
pub open spec fn encode_directory(d: Seq<ChapterView>) -> Seq<u8> {
    le_bytes(block_size(d), 4) + le_bytes(d.len() as nat, 2) + encode_entries(d)
}

/// `r` with `front` put before its records.
pub open spec fn join(
    front: Seq<ChapterView>,
    r: Result<Seq<ChapterView>, CodecError>,
) -> Result<Seq<ChapterView>, CodecError> {
    match r {
        Ok(s) => Ok(front + s),
        Err(e) => Err(e),
    }
}

/// The record at the start of `b`, with the number of bytes it takes, or the
/// first error met while reading it.
pub open spec fn parse_entry(b: Seq<u8>) -> Result<(ChapterView, nat), CodecError> {
    if b.len() < 1 {
        Err(CodecError::OutOfBounds)
    } else {
        let n = b[0] as int;
        if b.len() < 1 + n {
            Err(CodecError::OutOfBounds)
        } else if !valid_utf8(b.subrange(1, 1 + n)) {
            Err(CodecError::InvalidEncoding)
        } else if b.len() < CHAPTER_HEADER_BYTE_SIZE as int + n {
            Err(CodecError::OutOfBounds)
        } else {
            Ok(
                (
                    ChapterView {
                        name: decode_utf8(b.subrange(1, 1 + n)),
                        byte_offset: le_value(b.subrange(1 + n, 9 + n)) as u64,
                        byte_length: le_value(b.subrange(9 + n, 17 + n)) as u64,
                        page_count: le_value(b.subrange(17 + n, 19 + n)) as u16,
                    },
                    (CHAPTER_HEADER_BYTE_SIZE as int + n) as nat,
                ),
            )
        }
    }
}

/// `count` records read one after another from the start of `b`.
pub open spec fn parse_entries(b: Seq<u8>, count: nat) -> Result<Seq<ChapterView>, CodecError>
    decreases count,
{
    if count == 0 {
        Ok(seq![])
    } else {
        match parse_entry(b) {
            Err(e) => Err(e),
            Ok((e, k)) => join(seq![e], parse_entries(b.skip(k as int), (count - 1) as nat)),
        }
    }
}

/// The directory held by the bytes of a block after its length field: the
/// count, then that many records. Bytes after the last record are ignored.
pub open spec fn decode_body(body: Seq<u8>) -> Result<Seq<ChapterView>, CodecError> {
    if body.len() < 2 {
        Err(CodecError::OutOfBounds)
    } else {
        parse_entries(body.skip(2), le_value(body.take(2)))
    }
}

/// The directory held by a block whose length field reads `block_length`
/// and whose remaining bytes are `body`.
pub open spec fn decode_block(block_length: u32, body: Seq<u8>) -> Result<
    Seq<ChapterView>,
    CodecError,
> {
    if block_length == 0 {
        Ok(seq![])
    } else {
        decode_body(body)
    }
}

pub proof fn lemma_encode_entries_len(d: Seq<ChapterView>)
    ensures
        encode_entries(d).len() == entries_size(d),
    decreases d.len(),
{
    if d.len() > 0 {
        let e = d[0];
        lemma_le_bytes_len(name_bytes(e).len(), 1);
        lemma_le_bytes_len(e.byte_offset as nat, 8);
        lemma_le_bytes_len(e.byte_length as nat, 8);
        lemma_le_bytes_len(e.page_count as nat, 2);
        lemma_encode_entries_len(d.drop_first());
    }
}

pub proof fn lemma_entries_push(d: Seq<ChapterView>, e: ChapterView)
    ensures
        encode_entries(d.push(e)) == encode_entries(d) + encode_entry(e),
        entries_size(d.push(e)) == entries_size(d) + entry_size(e),
    decreases d.len(),
{
    if d.len() == 0 {
        assert(d.push(e).drop_first() =~= d);
        assert(encode_entries(d.push(e)) =~= encode_entries(d) + encode_entry(e));
    } else {
        assert(d.push(e).drop_first() =~= d.drop_first().push(e));
        lemma_entries_push(d.drop_first(), e);
        assert(encode_entries(d.push(e)) =~= encode_entries(d) + encode_entry(e));
    }
}

pub proof fn lemma_entries_size_bound(d: Seq<ChapterView>)
    requires
        forall|i: int| 0 <= i < d.len() ==> entry_valid(#[trigger] d[i]),
    ensures
        entries_size(d) <= (CHAPTER_HEADER_BYTE_SIZE + NAME_MAX_BYTES) * d.len(),
    decreases d.len(),
{
    if d.len() > 0 {
        assert(entry_valid(d[0]));
        assert forall|i: int| 0 <= i < d.drop_first().len() implies entry_valid(
            #[trigger] d.drop_first()[i],
        ) by {
            assert(entry_valid(d[i + 1]));
        }
        lemma_entries_size_bound(d.drop_first());
    }
}

/// The records written for `d`, followed by anything, read back as `d`.
proof fn lemma_parse_encoded(d: Seq<ChapterView>, rest: Seq<u8>)
    requires
        forall|i: int| 0 <= i < d.len() ==> entry_valid(#[trigger] d[i]),
    ensures
        parse_entries(encode_entries(d) + rest, d.len()) == Ok::<Seq<ChapterView>, CodecError>(d),
    decreases d.len(),
{
    let b = encode_entries(d) + rest;
    if d.len() == 0 {
        assert(d =~= seq![]);
    } else {
        let e = d[0];
        assert(entry_valid(e));
        let nb = name_bytes(e);
        let n = nb.len() as int;
        let tail = d.drop_first();
        assert forall|i: int| 0 <= i < tail.len() implies entry_valid(#[trigger] tail[i]) by {
            assert(entry_valid(d[i + 1]));
        }
        lemma_le_bytes_len(n as nat, 1);
        lemma_le_bytes_len(e.byte_offset as nat, 8);
        lemma_le_bytes_len(e.byte_length as nat, 8);
        lemma_le_bytes_len(e.page_count as nat, 2);
        lemma_pow256_values();
        let lb = le_bytes(n as nat, 1);
        assert(lb =~= seq![n as u8] + le_bytes((n / 256) as nat, 0));
        assert(b[0] == n as u8);
        let ob = le_bytes(e.byte_offset as nat, 8);
        let bb = le_bytes(e.byte_length as nat, 8);
        let pb = le_bytes(e.page_count as nat, 2);
        assert(b =~= lb + nb + ob + bb + pb + (encode_entries(tail) + rest));
        assert(b.subrange(1, 1 + n) =~= nb);
        assert(b.subrange(1 + n, 9 + n) =~= ob);
        assert(b.subrange(9 + n, 17 + n) =~= bb);
        assert(b.subrange(17 + n, 19 + n) =~= pb);
        assert(b.skip(19 + n) =~= encode_entries(tail) + rest);
        encode_utf8_valid_utf8(e.name);
        encode_utf8_decode_utf8(e.name);
        lemma_le_round_trip(e.byte_offset as nat, 8);
        lemma_le_round_trip(e.byte_length as nat, 8);
        lemma_le_round_trip(e.page_count as nat, 2);
        lemma_parse_encoded(tail, rest);
        assert(seq![e] + tail =~= d);
    }
}

/// The length that a directory reports is the length of the block it
/// encodes to.
pub proof fn lemma_byte_length_is_encoded_length(d: Seq<ChapterView>)
    ensures
        encode_directory(d).len() == block_size(d),
{
    lemma_le_bytes_len(block_size(d), 4);
    lemma_le_bytes_len(d.len() as nat, 2);
    lemma_encode_entries_len(d);
}

/// Decoding the block that a valid directory encodes to gives that directory
/// back, record for record and in order: the length field gives the size of
/// the block, and the bytes after it decode to `d`.
pub proof fn lemma_decode_encode(d: Seq<ChapterView>)
    requires
        directory_valid(d),
    ensures
        le_value(encode_directory(d).take(4)) == encode_directory(d).len(),
        decode_block(
            encode_directory(d).len() as u32,
            encode_directory(d).skip(4),
        ) == Ok::<Seq<ChapterView>, CodecError>(d),
{
    let e = encode_directory(d);
    lemma_byte_length_is_encoded_length(d);
    lemma_entries_size_bound(d);
    lemma_pow256_values();
    lemma_le_bytes_len(block_size(d), 4);
    lemma_le_bytes_len(d.len() as nat, 2);
    assert(e.take(4) =~= le_bytes(block_size(d), 4));
    lemma_le_round_trip(block_size(d), 4);
    let body = e.skip(4);
    assert(body.take(2) =~= le_bytes(d.len() as nat, 2));
    lemma_le_round_trip(d.len() as nat, 2);
    assert(body.skip(2) =~= encode_entries(d) + seq![]);
    lemma_parse_encoded(d, seq![]);
}

/// One chapter: its name and where its body lies in the container file.
pub struct ChapterHeader {
    pub name: String,
    pub byte_offset: u64,
    pub byte_length: u64,
    pub page_count: u16,
}

impl View for ChapterHeader {
    type V = ChapterView;

    open spec fn view(&self) -> ChapterView {
        ChapterView {
            name: self.name@,
            byte_offset: self.byte_offset,
            byte_length: self.byte_length,
            page_count: self.page_count,
        }
    }
}

/// The ordered chapter records of a container file.
pub struct ChapterTable {
    chapters: Vec<ChapterHeader>,
}

/// Reads one record at the reader's cursor.
fn read_entry(reader: &mut BufferReader) -> (r: Result<ChapterHeader, CodecError>)
    requires
        old(reader).cursor() <= old(reader).bytes().len(),
    ensures
        final(reader).bytes() == old(reader).bytes(),
        match parse_entry(old(reader).bytes().skip(old(reader).cursor() as int)) {
            Ok((e, k)) => (r matches Ok(h) && h@ == e && final(reader).cursor() == old(
                reader,
            ).cursor() + k),
            Err(err) => (r matches Err(x) && x == err),
        },
        r matches Ok(h) ==> entry_valid(h@),
{
    let ghost b = old(reader).bytes().skip(old(reader).cursor() as int);
    let ghost c = old(reader).cursor() as int;
    assert(b.len() == old(reader).bytes().len() - c);
    let name_length = match reader.read_u8() {
        Ok(v) => v,
        Err(e) => return Err(e),
    };
    proof {
        assert(old(reader).ahead(1).drop_first() =~= Seq::<u8>::empty());
        assert(old(reader).ahead(1)[0] == b[0]);
    }
    let name = match reader.read_string(name_length as usize) {
        Ok(s) => s,
        Err(e) => {
            proof {
                if c + 1 + name_length <= reader.bytes().len() {
                    assert(b.subrange(1, 1 + name_length as int) =~= reader.bytes().subrange(
                        c + 1,
                        c + 1 + name_length,
                    ));
                }
            }
            return Err(e);
        },
    };
    let ghost n = name_length as int;
    assert(b.subrange(1, 1 + n) =~= old(reader).bytes().subrange(c + 1, c + 1 + n));
    let byte_offset = match reader.read_u64() {
        Ok(v) => v,
        Err(e) => return Err(e),
    };
    assert(b.subrange(1 + n, 9 + n) =~= old(reader).bytes().subrange(c + 1 + n, c + 9 + n));
    let byte_length = match reader.read_u64() {
        Ok(v) => v,
        Err(e) => return Err(e),
    };
    assert(b.subrange(9 + n, 17 + n) =~= old(reader).bytes().subrange(c + 9 + n, c + 17 + n));
    let page_count = match reader.read_u16() {
        Ok(v) => v,
        Err(e) => return Err(e),
    };
    assert(b.subrange(17 + n, 19 + n) =~= old(reader).bytes().subrange(c + 17 + n, c + 19 + n));
    proof {
        decode_utf8_encode_utf8(b.subrange(1, 1 + n));
    }
    Ok(ChapterHeader { name, byte_offset, byte_length, page_count })
}

impl ChapterTable {
    /// The records, in order.
    pub closed spec fn view(&self) -> Seq<ChapterView> {
        self.chapters@.map_values(|h: ChapterHeader| h@)
    }

    pub open spec fn wf(&self) -> bool {
        directory_valid(self@)
    }

    /// The names of the chapters, in order.
    pub fn get_chapter_names(&self) -> (r: Vec<&str>)
        ensures
            r@.len() == self@.len(),
            forall|i: int| 0 <= i < r@.len() ==> (#[trigger] r@[i])@ == self@[i].name,
    {
        let mut names: Vec<&str> = Vec::new();
        let mut i: usize = 0;
        while i < self.chapters.len()
            invariant
                i <= self.chapters@.len(),
                names@.len() == i,
                forall|j: int| 0 <= j < i ==> (#[trigger] names@[j])@ == self@[j].name,
            decreases self.chapters@.len() - i,
        {
            names.push(self.chapters[i].name.as_str());
            i = i + 1;
        }
        names
    }

    /// The record at `index`.
    pub fn get_chapter_by_index(&self, index: usize) -> (r: Result<&ChapterHeader, CodecError>)
        ensures
            index < self@.len() ==> (r matches Ok(h) && h@ == self@[index as int]),
            index >= self@.len() ==> (r matches Err(e) && e == CodecError::OutOfBounds),
    {
        if index < self.chapters.len() {
            Ok(&self.chapters[index])
        } else {
            Err(CodecError::OutOfBounds)
        }
    }

    /// The first record named `name`.
    pub fn get_chapter_by_name(&self, name: &str) -> (r: Result<&ChapterHeader, CodecError>)
        ensures
            match r {
                Ok(h) => exists|i: int|
                    0 <= i < self@.len() && self@[i].name == name@ && h@ == self@[i] && forall|
                        j: int,
                    |
                        0 <= j < i ==> self@[j].name != name@,
                Err(e) => e == CodecError::NotFound && forall|i: int|
                    0 <= i < self@.len() ==> self@[i].name != name@,
            },
    {
        let wanted = name.to_owned();
        let mut i: usize = 0;
        while i < self.chapters.len()
            invariant
                i <= self.chapters@.len(),
                wanted@ == name@,
                forall|j: int| 0 <= j < i ==> self@[j].name != name@,
            decreases self.chapters@.len() - i,
        {
            if self.chapters[i].name == wanted {
                assert(self@[i as int] == self.chapters@[i as int]@);
                return Ok(&self.chapters[i]);
            }
            i = i + 1;
        }
        Err(CodecError::NotFound)
    }
}

impl ChapterTable {
    /// Size in bytes of the block that `encode` returns.
    pub fn byte_length(&self) -> (r: usize)
        requires
            self.wf(),
        ensures
            r == block_size(self@),
            r <= u32::MAX,
    {
        let ghost d = self@;
        let mut total: usize = 6;
        let mut i: usize = 0;
        proof {
            lemma_entries_size_bound(d);
            assert(d.take(0) =~= Seq::<ChapterView>::empty());
        }
        while i < self.chapters.len()
            invariant
                d == self@,
                directory_valid(d),
                i <= d.len(),
                total == 6 + entries_size(d.take(i as int)),
                entries_size(d.take(i as int)) <= 274 * i,
            decreases d.len() - i,
        {
            let ghost e = d[i as int];
            assert(self.chapters@[i as int]@ == e);
            proof {
                assert(entry_valid(e));
                lemma_entries_push(d.take(i as int), e);
                assert(d.take(i as int).push(e) =~= d.take(i + 1));
            }
            let n = self.chapters[i].name.as_str().len();
            assert(n as nat == name_bytes(e).len());
            total = total + CHAPTER_HEADER_BYTE_SIZE + n;
            i = i + 1;
        }
        assert(d.take(i as int) =~= d);
        total
    }

    /// The block that stores this directory.
    pub fn encode(&self) -> (r: Vec<u8>)
        requires
            self.wf(),
        ensures
            r@ == encode_directory(self@),
    {
        let ghost d = self@;
        let total = self.byte_length();
        let mut writer = BufferWriter::new(total);
        writer.write_u32(total as u32);
        writer.write_u16(self.chapters.len() as u16);
        let ghost head = writer.buffer@;
        assert(d.take(0) =~= Seq::<ChapterView>::empty());
        let mut i: usize = 0;
        while i < self.chapters.len()
            invariant
                d == self@,
                directory_valid(d),
                i <= d.len(),
                writer.buffer@ == head + encode_entries(d.take(i as int)),
            decreases d.len() - i,
        {
            let chapter = &self.chapters[i];
            let ghost e = d[i as int];
            assert(chapter@ == e);
            proof {
                assert(entry_valid(e));
                lemma_entries_push(d.take(i as int), e);
                assert(d.take(i as int).push(e) =~= d.take(i + 1));
            }
            let ghost before = writer.buffer@;
            let name = chapter.name.as_str();
            writer.write_u8(name.len() as u8);
            let mut name_bytes = slice_to_vec(name.as_bytes());
            writer.write_u8_array(&mut name_bytes);
            writer.write_u64(chapter.byte_offset);
            writer.write_u64(chapter.byte_length);
            writer.write_u16(chapter.page_count);
            assert(writer.buffer@ =~= before + encode_entry(e));
            i = i + 1;
        }
        assert(d.take(i as int) =~= d);
        writer.buffer
    }

    /// How many bytes follow a length field that reads `block_length`: none
    /// for the empty sentinel 0, else the rest of the block. A nonzero length
    /// too short to hold its own field is `OutOfBounds`.
    pub fn body_length(block_length: u32) -> (r: Result<usize, CodecError>)
        ensures
            block_length == 0 ==> r == Ok::<usize, CodecError>(0),
            0 < block_length < 4 ==> r == Err::<usize, CodecError>(CodecError::OutOfBounds),
            block_length >= 4 ==> r == Ok::<usize, CodecError>((block_length - 4) as usize),
    {
        if block_length == 0 {
            Ok(0)
        } else if block_length < 4 {
            Err(CodecError::OutOfBounds)
        } else {
            Ok((block_length - 4) as usize)
        }
    }

    /// The directory in a block whose length field reads `block_length` and
    /// whose remaining bytes are `body`. A length of 0 gives the empty
    /// directory and `body` is not looked at. On any error no directory is
    /// returned.
    pub fn decode(block_length: u32, body: Vec<u8>) -> (r: Result<ChapterTable, CodecError>)
        ensures
            match decode_block(block_length, body@) {
                Ok(d) => (r matches Ok(t) && t@ == d),
                Err(err) => (r matches Err(x) && x == err),
            },
            block_length == 0 ==> (r matches Ok(t) && t@.len() == 0),
            r matches Ok(t) ==> t.wf(),
    {
        if block_length == 0 {
            let t = ChapterTable { chapters: Vec::new() };
            assert(t@ =~= Seq::<ChapterView>::empty());
            return Ok(t);
        }
        let ghost b = body@;
        let mut reader = BufferReader::new(body);
        let count = match reader.read_u16() {
            Ok(v) => v,
            Err(e) => return Err(e),
        };
        assert(b.take(2) =~= reader.bytes().subrange(0, 2));
        let mut chapters: Vec<ChapterHeader> = Vec::new();
        let mut i: u16 = 0;
        proof {
            assert(chapters@.map_values(|h: ChapterHeader| h@) =~= Seq::<ChapterView>::empty());
            assert(b.skip(2) =~= reader.bytes().skip(reader.cursor() as int));
            assert(Seq::<ChapterView>::empty() + Seq::<ChapterView>::empty()
                =~= Seq::<ChapterView>::empty());
        }
        while i < count
            invariant
                reader.bytes() == b,
                b == body@,
                block_length != 0,
                b.len() >= 2,
                reader.cursor() <= b.len(),
                i <= count,
                count as nat == le_value(b.take(2)),
                chapters@.len() == i,
                forall|j: int| 0 <= j < i ==> entry_valid((#[trigger] chapters@[j])@),
                decode_body(b) == join(
                    chapters@.map_values(|h: ChapterHeader| h@),
                    parse_entries(b.skip(reader.cursor() as int), (count - i) as nat),
                ),
            decreases count - i,
        {
            let ghost acc = chapters@.map_values(|h: ChapterHeader| h@);
            let ghost rest = b.skip(reader.cursor() as int);
            let ghost k = (count - i) as nat;
            let chapter = match read_entry(&mut reader) {
                Ok(h) => h,
                Err(e) => return Err(e),
            };
            proof {
                let (e, used) = parse_entry(rest).unwrap();
                assert(rest.skip(used as int) =~= b.skip(reader.cursor() as int));
                assert(chapters@.push(chapter).map_values(|h: ChapterHeader| h@) =~= acc.push(e));
                let tail = parse_entries(rest.skip(used as int), (k - 1) as nat);
                match tail {
                    Ok(s) => {
                        assert(acc + (seq![e] + s) =~= acc.push(e) + s);
                    },
                    Err(_) => {},
                }
            }
            chapters.push(chapter);
            i = i + 1;
        }
        let t = ChapterTable { chapters };
        proof {
            let acc = t.chapters@.map_values(|h: ChapterHeader| h@);
            assert(acc + Seq::<ChapterView>::empty() =~= acc);
            assert forall|j: int| 0 <= j < t@.len() implies entry_valid(#[trigger] t@[j]) by {
                assert(entry_valid(t.chapters@[j]@));
            }
        }
        Ok(t)
    }
}

impl ChapterTable {
    /// A directory with one placeholder record per name, in the given
    /// order, all numbers zero. A name longer than 255 bytes in UTF-8 is
    /// refused with `NameTooLong` and no directory is made.
    pub fn from_chapter_names_array(chapter_names: &[&str]) -> (r: Result<
        ChapterTable,
        CodecError,
    >)
        requires
            chapter_names@.len() <= CHAPTER_COUNT_MAX,
        ensures
            (exists|i: int|
                0 <= i < chapter_names@.len() && encode_utf8((#[trigger] chapter_names@[i])@).len()
                    > NAME_MAX_BYTES) ==> (r matches Err(e) && e == CodecError::NameTooLong),
            (forall|i: int|
                0 <= i < chapter_names@.len() ==> encode_utf8((#[trigger] chapter_names@[i])@).len()
                    <= NAME_MAX_BYTES) ==> (r matches Ok(t) && t.wf() && t@.len()
                == chapter_names@.len() && forall|i: int|
                0 <= i < t@.len() ==> #[trigger] t@[i] == placeholder(chapter_names@[i]@)),
    {
        let mut chapters: Vec<ChapterHeader> = Vec::new();
        let mut i: usize = 0;
        while i < chapter_names.len()
            invariant
                i <= chapter_names@.len() <= CHAPTER_COUNT_MAX,
                chapters@.len() == i,
                forall|j: int|
                    0 <= j < i ==> encode_utf8((#[trigger] chapter_names@[j])@).len()
                        <= NAME_MAX_BYTES,
                forall|j: int|
                    0 <= j < i ==> (#[trigger] chapters@[j])@ == placeholder(chapter_names@[j]@),
            decreases chapter_names@.len() - i,
        {
            let name: &str = chapter_names[i];
            if name.as_bytes().len() > NAME_MAX_BYTES {
                return Err(CodecError::NameTooLong);
            }
            assert(encode_utf8(chapter_names@[i as int]@).len() <= NAME_MAX_BYTES);
            chapters.push(
                ChapterHeader { name: name.to_owned(), byte_offset: 0, byte_length: 0, page_count: 0 },
            );
            i = i + 1;
        }
        let t = ChapterTable { chapters };
        assert forall|j: int| 0 <= j < t@.len() implies #[trigger] t@[j] == placeholder(
            chapter_names@[j]@,
        ) by {
            assert(t.chapters@[j]@ == placeholder(chapter_names@[j]@));
        }
        assert forall|j: int| 0 <= j < t@.len() implies entry_valid(#[trigger] t@[j]) by {
            assert(t.chapters@[j]@ == placeholder(chapter_names@[j]@));
            assert(encode_utf8(chapter_names@[j]@).len() <= NAME_MAX_BYTES);
        }
        Ok(t)
    }

    /// Records where the body of the chapter at `index` was written and how
    /// many pages it has; its name stays.
    pub fn update_chapter(
        &mut self,
        index: usize,
        byte_offset: u64,
        byte_length: u64,
        page_count: u16,
    ) -> (r: Result<(), CodecError>)
        requires
            old(self).wf(),
        ensures
            final(self).wf(),
            index < old(self)@.len() ==> r is Ok && final(self)@ == old(self)@.update(
                index as int,
                ChapterView { name: old(self)@[index as int].name, byte_offset, byte_length, page_count },
            ),
            index >= old(self)@.len() ==> (r matches Err(e) && e == CodecError::OutOfBounds)
                && final(self)@ == old(self)@,
    {
        if index >= self.chapters.len() {
            return Err(CodecError::OutOfBounds);
        }
        let name = self.chapters[index].name.clone();
        let ghost before = self.chapters@;
        self.chapters.set(index, ChapterHeader { name, byte_offset, byte_length, page_count });
        proof {
            let v = ChapterView { name: old(self)@[index as int].name, byte_offset, byte_length, page_count };
            assert(before[index as int]@ == old(self)@[index as int]);
            assert(self@ =~= old(self)@.update(index as int, v));
            assert forall|j: int| 0 <= j < self@.len() implies entry_valid(#[trigger] self@[j]) by {
                assert(entry_valid(old(self)@[j]));
            }
        }
        Ok(())
    }
}

} // verus!
