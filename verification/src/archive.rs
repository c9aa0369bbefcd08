//! The headers that a reader comes to in a tar archive, and the sizes that they
//! claim: positions in an archive are counted in 64 bits, and so are sizes.

use vstd::prelude::*;
use vstd::slice::*;

use crate::number::{
    binary_value, decimal_bytes, find_byte, first_at, lemma_first_at, octal_field, parse_binary,
    parse_decimal_bytes, parse_octal_field,
};
use crate::text::bytes_equal;

verus! {

/// The blocks that an archive is made of are this long.
pub const BLOCK_LEN: usize = 512;

/// The size of an entry stands in its header from here on.
pub const SIZE_AT: usize = 124;

/// The last eight bytes of the size stand from here on.
pub const SIZE_LOW_AT: usize = 128;

/// The size of an entry ends here.
pub const SIZE_END: usize = 136;

/// The checksum of a header stands from here on.
pub const SUM_AT: usize = 148;

/// The checksum of a header ends here, and the kind of the entry follows.
pub const KIND_AT: usize = 156;

/// A header tells its format from here on.
pub const MAGIC_AT: usize = 257;

/// A header has told its format.
pub const MAGIC_END: usize = 265;

/// The header of a sparse file tells here whether its blocks go on behind it.
pub const EXTENDED_AT: usize = 482;

/// A block behind the header of a sparse file tells here whether another one
/// follows.
pub const FURTHER_AT: usize = 504;

/// The kind of a sparse file.
pub const SPARSE: u8 = 83;

/// The kind of an entry whose records extend the header that follows.
pub const RECORDS: u8 = 120;

/// The kind of an entry whose records are for all that follows.
pub const GLOBAL_RECORDS: u8 = 103;

/// The kind of an entry that holds the path of the next.
pub const LONG_NAME: u8 = 76;

/// The kind of an entry that holds what the next links to.
pub const LONG_LINK: u8 = 75;

/// What ends a record.
pub const NEWLINE: u8 = 10;

/// What stands behind the length of a record.
pub const BLANK: u8 = 32;

/// What stands behind the key of a record.
pub const EQUALS: u8 = 61;

/// No archive is longer than this.
pub const MAX_LEN: u64 = 0x4000_0000_0000_0000;

/// How a header tells that it is in the GNU format.
pub open spec fn gnu_magic() -> Seq<u8> {
    seq![117u8, 115, 116, 97, 114, 32, 32, 0]
}

/// How a header tells that it is in the format of POSIX.
pub open spec fn ustar_magic() -> Seq<u8> {
    seq![117u8, 115, 116, 97, 114, 0, 48, 48]
}

/// The key of a size among the records.
pub open spec fn size_key() -> Seq<u8> {
    seq![115u8, 105, 122, 101]
}

/// The block of `data` at `at`.
pub open spec fn block_at(data: Seq<u8>, at: int) -> Seq<u8> {
    data.subrange(at, at + BLOCK_LEN)
}

/// The sum of the first `n` bytes of a header, in which blanks stand for the
/// checksum itself.
pub open spec fn header_sum(block: Seq<u8>, n: int) -> int
    decreases n,
{
    if n <= 0 {
        0
    } else {
        header_sum(block, n - 1) + (if SUM_AT <= n - 1 < KIND_AT {
            BLANK
        } else {
            block[n - 1]
        })
    }
}

/// The size in a header: a binary number where the first bit says so, and an
/// octal one otherwise.
pub open spec fn size_field(block: Seq<u8>) -> Option<int> {
    if block[SIZE_AT as int] >= 128 {
        Some(binary_value(block.subrange(SIZE_LOW_AT as int, SIZE_END as int)))
    } else {
        octal_field(block.subrange(SIZE_AT as int, SIZE_END as int))
    }
}

/// Whether a block is the header of an entry: it is not empty, its checksum is
/// right, and it has a size.
pub open spec fn is_header(block: Seq<u8>) -> bool {
    &&& exists|i: int| 0 <= i < BLOCK_LEN && #[trigger] block[i] != 0
    &&& octal_field(block.subrange(SUM_AT as int, KIND_AT as int)) == Some(
        header_sum(block, BLOCK_LEN as int),
    )
    &&& size_field(block) is Some
}

/// Whether a header is in the GNU format.
pub open spec fn is_gnu(block: Seq<u8>) -> bool {
    block.subrange(MAGIC_AT as int, MAGIC_END as int) == gnu_magic()
}

/// Whether a header is in one of the formats that can be extended.
pub open spec fn is_known_format(block: Seq<u8>) -> bool {
    is_gnu(block) || block.subrange(MAGIC_AT as int, MAGIC_END as int) == ustar_magic()
}

/// Whether a header is that of a sparse file whose blocks go on behind it.
pub open spec fn is_extended(block: Seq<u8>) -> bool {
    block[KIND_AT as int] == SPARSE && is_gnu(block) && block[EXTENDED_AT as int] == 1
}

/// Whether the kind is of an entry that tells more of others.
pub open spec fn is_extension(kind: u8) -> bool {
    kind == RECORDS || kind == GLOBAL_RECORDS || kind == LONG_NAME || kind == LONG_LINK
}

/// The key and the value of a record: its length, itself included with the end
/// of its line, then a blank, the key, an equals sign and the value.
pub open spec fn record_parts(line: Seq<u8>) -> Option<(Seq<u8>, Seq<u8>)> {
    let blank = first_at(line, BLANK);
    let rest = line.skip(blank + 1);
    let equals = first_at(rest, EQUALS);
    if blank < line.len() && decimal_bytes(line.take(blank)) == Some(line.len() as int + 1) && equals
        < rest.len() {
        Some((rest.take(equals), rest.skip(equals + 1)))
    } else {
        None
    }
}

/// The size that records give: that of the first of them with the key of a
/// size, if the records before it are in order.
pub open spec fn records_size(records: Seq<u8>) -> Option<int>
    decreases records.len(),
{
    let end = first_at(records, NEWLINE);
    if end <= 0 || end > records.len() {
        None
    } else {
        match record_parts(records.take(end)) {
            None => None,
            Some((key, value)) => if key == size_key() {
                decimal_bytes(value)
            } else if end < records.len() {
                records_size(records.skip(end + 1))
            } else {
                None
            },
        }
    }
}

/// A place in an archive where a header may be, and the records that were read
/// for it.
#[verifier::ext_equal]
pub struct Place {
    pub at: int,
    pub records: Option<Seq<u8>>,
}

/// Whether there is a header at a place.
pub open spec fn has_header(data: Seq<u8>, place: Place) -> bool {
    &&& 0 <= place.at
    &&& place.at + BLOCK_LEN <= data.len()
    &&& is_header(block_at(data, place.at))
}

/// The size of the entry whose header is at a place: the one that its records
/// give, or the one in the header.
pub open spec fn entry_size(data: Seq<u8>, place: Place) -> int {
    let block = block_at(data, place.at);
    if place.records is Some && !is_extension(block[KIND_AT as int]) && records_size(
        place.records->0,
    ) is Some {
        records_size(place.records->0)->0
    } else {
        size_field(block)->0
    }
}

/// How many blocks go on behind the header of a sparse file, from `at` on.
pub open spec fn further_blocks(data: Seq<u8>, at: int) -> int
    decreases data.len() - at,
{
    if at + BLOCK_LEN > data.len() {
        0
    } else if data[at + FURTHER_AT] == 1 {
        1 + further_blocks(data, at + BLOCK_LEN)
    } else {
        1
    }
}

/// `size` bytes, rounded up to whole blocks.
pub open spec fn whole_blocks(size: int) -> int {
    (size + BLOCK_LEN - 1) / BLOCK_LEN as int * BLOCK_LEN
}

/// The next place that a reader comes to behind the header at `place`, if it
/// goes on: what the entry holds is passed over, whatever it is.
pub open spec fn place_behind(data: Seq<u8>, place: Place) -> Option<Place> {
    let block = block_at(data, place.at);
    let kind = block[KIND_AT as int];
    let start = place.at + BLOCK_LEN;
    let size = entry_size(data, place);
    let end = start + whole_blocks(size);
    if !has_header(data, place) {
        None
    } else if is_known_format(block) && kind == RECORDS {
        if place.records is Some {
            None
        } else if end > data.len() {
            Some(Place { at: end, records: None })
        } else {
            Some(Place { at: end, records: Some(data.subrange(start, start + size)) })
        }
    } else if is_known_format(block) && (kind == LONG_NAME || kind == LONG_LINK) {
        Some(Place { at: end, records: place.records })
    } else if kind == SPARSE && !is_gnu(block) {
        None
    } else if is_extended(block) {
        Some(Place { at: end + BLOCK_LEN * further_blocks(data, start), records: None })
    } else {
        Some(Place { at: end, records: None })
    }
}

/// The place that a reader of `data` comes to behind `n` headers, if it gets
/// that far.
pub open spec fn place_reached(data: Seq<u8>, n: nat) -> Option<Place>
    decreases n,
{
    if n == 0 {
        Some(Place { at: 0, records: None })
    } else {
        match place_reached(data, (n - 1) as nat) {
            Some(place) => place_behind(data, place),
            None => None,
        }
    }
}

/// Whether a reader of `data` comes to a header at `at`.
pub open spec fn header_starts(data: Seq<u8>, at: int) -> bool {
    exists|n: nat|
        (#[trigger] place_reached(data, n)) is Some && place_reached(data, n)->0.at == at
            && has_header(data, place_reached(data, n)->0)
}

/// Whether the block of `data` at `at` is the header of a sparse file whose
/// blocks go on behind it.
pub open spec fn is_extended_sparse(data: Seq<u8>, at: int) -> bool {
    &&& 0 <= at
    &&& at + BLOCK_LEN <= data.len()
    &&& is_extended(block_at(data, at))
}

/// Whether there is the header of such a sparse file at a place, with a size
/// from [`MAX_LEN`] on.
pub open spec fn claims_huge_size(data: Seq<u8>, place: Place) -> bool {
    &&& has_header(data, place)
    &&& is_extended_sparse(data, place.at)
    &&& entry_size(data, place) >= MAX_LEN
}

/// Whether none of the headers that a reader of `data` comes to is that of a
/// sparse file whose blocks go on behind it, with a size from [`MAX_LEN`] on.
pub open spec fn has_sane_sizes(data: Seq<u8>) -> bool {
    &&& data.len() < MAX_LEN
    &&& forall|n: nat|
        (#[trigger] place_reached(data, n)) is Some ==> !claims_huge_size(
            data,
            place_reached(data, n)->0,
        )
}

/// Where a sparse file has a size below [`MAX_LEN`], the position behind it can
/// be counted: `end` is where its header ends in an archive of `len` bytes, and
/// `blocks` are read behind that before what it holds.
pub proof fn lemma_position_fits(len: nat, end: nat, blocks: nat, size: nat)
    requires
        len < MAX_LEN,
        size < MAX_LEN,
        end + BLOCK_LEN * blocks <= len,
    ensures
        end + whole_blocks(size as int) + BLOCK_LEN * blocks <= u64::MAX,
{
}

/// What the files in an archive hold does not matter: where no header that a
/// reader comes to is that of a sparse file whose blocks go on behind it, the
/// sizes are sane.
pub proof fn lemma_contents_do_not_matter(data: Seq<u8>)
    requires
        data.len() < MAX_LEN,
        forall|at: int| #[trigger] header_starts(data, at) ==> !is_extended_sparse(data, at),
    ensures
        has_sane_sizes(data),
{
    assert forall|n: nat| (#[trigger] place_reached(data, n)) is Some implies !claims_huge_size(
        data,
        place_reached(data, n)->0,
    ) by {
        let place = place_reached(data, n)->0;
        if has_header(data, place) {
            assert(header_starts(data, place.at));
        }
    }
}

/// Where a reader does not go on, it comes to nothing more.
proof fn lemma_nothing_further(data: Seq<u8>, n: nat, m: nat)
    requires
        place_reached(data, n) is None,
        n <= m,
    ensures
        place_reached(data, m) is None,
    decreases m,
{
    if n < m {
        lemma_nothing_further(data, n, (m - 1) as nat);
    }
}

/// A reader that does not go on from a place has seen all sizes.
pub proof fn lemma_walk_ends(data: Seq<u8>, n: nat)
    requires
        data.len() < MAX_LEN,
        place_reached(data, n) is Some,
        place_behind(data, place_reached(data, n)->0) is None,
        forall|k: nat|
            k <= n && (#[trigger] place_reached(data, k)) is Some ==> !claims_huge_size(
                data,
                place_reached(data, k)->0,
            ),
    ensures
        has_sane_sizes(data),
{
    assert(place_reached(data, n + 1) is None);
    assert forall|k: nat| (#[trigger] place_reached(data, k)) is Some implies !claims_huge_size(
        data,
        place_reached(data, k)->0,
    ) by {
        if k > n {
            lemma_nothing_further(data, n + 1, k);
        }
    }
}

/// An archive is refused exactly where it is too long to count positions in it,
/// or a reader comes to the header of a sparse file in the GNU format whose
/// blocks go on behind it, and whose size is as large as that. How many headers
/// come before that one is given; and where a reader comes to one behind `n`
/// headers, the archive is refused.
pub proof fn lemma_refused_for_a_huge_sparse_file(data: Seq<u8>, n: nat) -> (count: nat)
    ensures
        data.len() >= 0x4000_0000_0000_0000 ==> !has_sane_sizes(data),
        !has_sane_sizes(data) && data.len() < 0x4000_0000_0000_0000 ==> {
            let place = place_reached(data, count)->0;
            &&& place_reached(data, count) is Some
            &&& 0 <= place.at
            &&& place.at + 512 <= data.len()
            &&& is_header(data.subrange(place.at, place.at + 512))
            &&& data[place.at + 156] == 83
            &&& data.subrange(place.at + 257, place.at + 265) == seq![
                117u8,
                115,
                116,
                97,
                114,
                32,
                32,
                0,
            ]
            &&& data[place.at + 482] == 1
            &&& entry_size(data, place) >= 0x4000_0000_0000_0000
        },
        place_reached(data, n) is Some && {
            let place = place_reached(data, n)->0;
            &&& 0 <= place.at
            &&& place.at + 512 <= data.len()
            &&& is_header(data.subrange(place.at, place.at + 512))
            &&& data[place.at + 156] == 83
            &&& data.subrange(place.at + 257, place.at + 265) == seq![
                117u8,
                115,
                116,
                97,
                114,
                32,
                32,
                0,
            ]
            &&& data[place.at + 482] == 1
            &&& entry_size(data, place) >= 0x4000_0000_0000_0000
        } ==> !has_sane_sizes(data),
{
    assert forall|at: int| 0 <= at && at + 512 <= data.len() implies (#[trigger] block_at(
        data,
        at,
    )).subrange(257, 265) == data.subrange(at + 257, at + 265) by {
        assert(block_at(data, at).subrange(257, 265) =~= data.subrange(at + 257, at + 265));
    }
    if place_reached(data, n) is Some {
        let place = place_reached(data, n)->0;
        if 0 <= place.at && place.at + 512 <= data.len() {
            let block = block_at(data, place.at);
            assert(block[156] == data[place.at + 156] && block[482] == data[place.at + 482]);
        }
    }
    if !has_sane_sizes(data) && data.len() < 0x4000_0000_0000_0000 {
        let count = choose|k: nat|
            (#[trigger] place_reached(data, k)) is Some && claims_huge_size(
                data,
                place_reached(data, k)->0,
            );
        let place = place_reached(data, count)->0;
        let block = block_at(data, place.at);
        assert(block[156] == data[place.at + 156] && block[482] == data[place.at + 482]);
        count
    } else {
        0
    }
}

/// A header has its own sum in it, in which its eight bytes count as blanks: one
/// byte more or less anywhere else changes the sum by as much, and in these
/// bytes by nothing. The sum of an empty block is that of the blanks.
pub proof fn lemma_sum_counts_every_byte(block: Seq<u8>, at: int, byte: u8, n: int)
    requires
        block.len() == 512,
        0 <= at < 512,
        0 <= n <= 512,
    ensures
        at >= n || 148 <= at < 156 ==> header_sum(block.update(at, byte), n) == header_sum(block, n),
        at < n && !(148 <= at < 156) ==> header_sum(block.update(at, byte), n) == header_sum(
            block,
            n,
        ) + byte - block[at],
        (forall|i: int| 0 <= i < 512 ==> block[i] == 0) ==> header_sum(block, n) == (if n <= 148 {
            0
        } else if n <= 156 {
            32 * (n - 148)
        } else {
            256
        }),
    decreases n,
{
    if n > 0 {
        lemma_sum_counts_every_byte(block, at, byte, n - 1);
    }
}

/// A block is taken for a header exactly where some byte of it is not zero, the
/// octal number in its bytes from 148 to 156 is its sum, and it has a size in its
/// bytes from 124 to 136: in octal, or, where the first bit is set, in binary in
/// the last eight of them.
pub proof fn lemma_header_has_sum_and_size(block: Seq<u8>, at: int)
    requires
        block.len() == 512,
    ensures
        ({
            let size = if block[124] >= 128 {
                Some(binary_value(block.subrange(128, 136)))
            } else {
                octal_field(block.subrange(124, 136))
            };
            &&& size_field(block) == size
            &&& 0 <= at < 512 && block[at] != 0 && octal_field(block.subrange(148, 156)) == Some(
                header_sum(block, 512),
            ) && size is Some ==> is_header(block)
            &&& is_header(block) ==> {
                &&& exists|i: int| 0 <= i < 512 && #[trigger] block[i] != 0
                &&& octal_field(block.subrange(148, 156)) == Some(header_sum(block, 512))
                &&& size is Some
            }
        }),
{
}

/// What an entry holds is passed over in whole blocks: as few as hold it.
pub proof fn lemma_whole_blocks_hold_it(size: int)
    requires
        0 <= size,
    ensures
        size <= whole_blocks(size) < size + 512,
        whole_blocks(size) % 512 == 0,
{
}

/// A reader starts at the front, and goes on from a header behind what its entry
/// holds. The size is the one that the records before it give, but for entries
/// that tell more of others, and the one in the header otherwise. Records are
/// kept for the entry behind them, past the entries for long names and links,
/// and may not come twice. A sparse file has its further blocks in between, and
/// has to be in the GNU format.
pub proof fn lemma_reader_goes_on(data: Seq<u8>, place: Place)
    requires
        0 <= place.at,
        place.at + 512 <= data.len(),
    ensures
        place_reached(data, 0) == Some(Place { at: 0, records: None }),
        ({
            let block = data.subrange(place.at, place.at + 512);
            let kind = data[place.at + 156];
            let magic = data.subrange(place.at + 257, place.at + 265);
            let gnu = magic == seq![117u8, 115, 116, 97, 114, 32, 32, 0];
            let known = gnu || magic == seq![117u8, 115, 116, 97, 114, 0, 48, 48];
            let told = if place.records is Some && kind != 120 && kind != 103 && kind != 76 && kind
                != 75 {
                records_size(place.records->0)
            } else {
                None
            };
            let size = if told is Some {
                told->0
            } else {
                size_field(block)->0
            };
            let start = place.at + 512;
            let end = start + whole_blocks(size);
            let next = place_behind(data, place);
            &&& !is_header(block) ==> next is None
            &&& is_header(block) ==> {
                &&& entry_size(data, place) == size
                &&& known && kind == 120 && place.records is Some ==> next is None
                &&& known && kind == 120 && place.records is None ==> next is Some && next->0.at
                    == end && (end <= data.len() ==> next->0.records == Some(
                    data.subrange(start, start + size),
                ))
                &&& known && (kind == 76 || kind == 75) ==> next == Some(
                    Place { at: end, records: place.records },
                )
                &&& kind == 83 && !gnu ==> next is None
                &&& kind == 83 && gnu && data[place.at + 482] == 1 ==> next == Some(
                    Place { at: end + 512 * further_blocks(data, start), records: None },
                )
                &&& kind == 83 && gnu && data[place.at + 482] != 1 ==> next == Some(
                    Place { at: end, records: None },
                )
                &&& kind != 83 && !(known && (kind == 120 || kind == 76 || kind == 75)) ==> next
                    == Some(Place { at: end, records: None })
            }
        }),
{
    let block = block_at(data, place.at);
    assert(block =~= data.subrange(place.at, place.at + 512));
    assert(block.subrange(257, 265) =~= data.subrange(place.at + 257, place.at + 265));
    assert(block[156] == data[place.at + 156] && block[482] == data[place.at + 482]);
}

/// A reader goes on from header to header for as long as there is one, however
/// many came before.
pub proof fn lemma_reader_goes_on_and_on(data: Seq<u8>, n: nat)
    ensures
        place_reached(data, n) is None ==> place_reached(data, n + 1) is None,
        place_reached(data, n) is Some ==> place_reached(data, n + 1) == place_behind(
            data,
            place_reached(data, n)->0,
        ),
{
}

/// Of the blocks behind a sparse file's header, each says whether another one
/// follows: the first that says otherwise is the last.
pub proof fn lemma_further_blocks_end(data: Seq<u8>, at: int)
    requires
        0 <= at,
    ensures
        at + 512 > data.len() ==> further_blocks(data, at) == 0,
        at + 512 <= data.len() && data[at + 504] != 1 ==> further_blocks(data, at) == 1,
        at + 512 <= data.len() && data[at + 504] == 1 ==> further_blocks(data, at) == 1
            + further_blocks(data, at + 512),
{
}

/// Where a byte comes first is where the run without it ends.
proof fn lemma_first_is(bytes: Seq<u8>, wanted: u8, n: int)
    requires
        0 <= n <= bytes.len(),
        forall|i: int| 0 <= i < n ==> bytes[i] != wanted,
        n < bytes.len() ==> bytes[n] == wanted,
    ensures
        first_at(bytes, wanted) == n,
{
    lemma_first_at(bytes, wanted);
    let first = first_at(bytes, wanted);
    if first < n {
        assert(bytes[first] != wanted);
    }
}

/// A record is its length in decimal, a blank, a key, an equals sign and a
/// value: it is read so exactly where the length is that of the line with its
/// end, and whatever the value holds.
pub proof fn lemma_record_is_taken_apart(told: Seq<u8>, key: Seq<u8>, value: Seq<u8>)
    requires
        forall|i: int| 0 <= i < told.len() ==> told[i] != 32,
        forall|i: int| 0 <= i < key.len() ==> key[i] != 61,
    ensures
        ({
            let line = told + seq![32u8] + key + seq![61u8] + value;
            let right = decimal_bytes(told) == Some(line.len() as int + 1);
            &&& right ==> record_parts(line) == Some((key, value))
            &&& !right ==> record_parts(line) is None
        }),
{
    let line = told + seq![32u8] + key + seq![61u8] + value;
    let rest = key + seq![61u8] + value;
    lemma_first_is(line, 32, told.len() as int);
    assert(line.take(told.len() as int) =~= told);
    assert(line.skip(told.len() as int + 1) =~= rest);
    lemma_first_is(rest, 61, key.len() as int);
    assert(rest.take(key.len() as int) =~= key);
    assert(rest.skip(key.len() as int + 1) =~= value);
}

/// Among records, the first line decides where its key is `size`, and the lines
/// behind it do otherwise. A line that is no record ends them, and so does an
/// empty one.
pub proof fn lemma_first_size_record_counts(line: Seq<u8>, rest: Seq<u8>)
    requires
        forall|i: int| 0 <= i < line.len() ==> line[i] != 10,
    ensures
        ({
            let records = line + seq![10u8] + rest;
            match record_parts(line) {
                None => records_size(records) is None,
                Some((key, value)) => {
                    &&& line.len() == 0 ==> records_size(records) is None
                    &&& line.len() > 0 && key == seq![115u8, 105, 122, 101] ==> records_size(
                        records,
                    ) == decimal_bytes(value)
                    &&& line.len() > 0 && key != seq![115u8, 105, 122, 101] ==> records_size(
                        records,
                    ) == records_size(rest)
                },
            }
        }),
{
    let records = line + seq![10u8] + rest;
    lemma_first_is(records, 10, line.len() as int);
    assert(records.take(line.len() as int) =~= line);
    assert(records.skip(line.len() as int + 1) =~= rest);
}

/// Whether a block is the header of an entry.
fn check_header(block: &[u8]) -> (found: bool)
    requires
        block@.len() == BLOCK_LEN,
    ensures
        found == is_header(block@),
{
    let mut empty: bool = true;
    let mut sum: u64 = 0;
    let mut i: usize = 0;
    while i < BLOCK_LEN
        invariant
            i <= BLOCK_LEN == block@.len(),
            empty == (forall|j: int| 0 <= j < i ==> block@[j] == 0),
            sum == header_sum(block@, i as int),
            sum <= 255 * i,
        decreases BLOCK_LEN - i,
    {
        if block[i] != 0 {
            empty = false;
        }
        let byte: u8 = if SUM_AT <= i && i < KIND_AT {
            BLANK
        } else {
            block[i]
        };
        sum = sum + byte as u64;
        i = i + 1;
    }
    if empty {
        return false;
    }
    assert(exists|j: int| 0 <= j < BLOCK_LEN && #[trigger] block@[j] != 0);
    match parse_octal_field(slice_subrange(block, SUM_AT, KIND_AT)) {
        Some(told) => told == sum && read_size(block).is_some(),
        None => false,
    }
}

/// Reads the size in a header.
fn read_size(block: &[u8]) -> (size: Option<u64>)
    requires
        block@.len() == BLOCK_LEN,
    ensures
        match size {
            Some(s) => size_field(block@) == Some(s as int),
            None => size_field(block@) is None,
        },
{
    if block[SIZE_AT] >= 128 {
        Some(parse_binary(slice_subrange(block, SIZE_LOW_AT, SIZE_END)))
    } else {
        parse_octal_field(slice_subrange(block, SIZE_AT, SIZE_END))
    }
}

/// Whether a header is in the GNU format.
fn check_gnu(block: &[u8]) -> (found: bool)
    requires
        block@.len() == BLOCK_LEN,
    ensures
        found == is_gnu(block@),
{
    let magic: [u8; 8] = [117u8, 115, 116, 97, 114, 32, 32, 0];
    assert(magic@ =~= gnu_magic());
    bytes_equal(slice_subrange(block, MAGIC_AT, MAGIC_END), magic.as_slice())
}

/// Whether a header is in one of the formats that can be extended.
fn check_known_format(block: &[u8]) -> (found: bool)
    requires
        block@.len() == BLOCK_LEN,
    ensures
        found == is_known_format(block@),
{
    let magic: [u8; 8] = [117u8, 115, 116, 97, 114, 0, 48, 48];
    assert(magic@ =~= ustar_magic());
    check_gnu(block) || bytes_equal(
        slice_subrange(block, MAGIC_AT, MAGIC_END),
        magic.as_slice(),
    )
}

/// Takes a record apart.
fn split_record(line: &[u8]) -> (parts: Option<(&[u8], &[u8])>)
    ensures
        match parts {
            Some(p) => record_parts(line@) == Some((p.0@, p.1@)),
            None => record_parts(line@) is None,
        },
{
    let blank: usize = find_byte(line, BLANK);
    if blank >= line.len() {
        return None;
    }
    let told: &[u8] = slice_subrange(line, 0, blank);
    let rest: &[u8] = slice_subrange(line, blank + 1, line.len());
    proof {
        assert(told@ =~= line@.take(blank as int));
        assert(rest@ =~= line@.skip(blank + 1));
    }
    match parse_decimal_bytes(told) {
        Some(len) => {
            if len as u128 != line.len() as u128 + 1 {
                return None;
            }
        },
        None => {
            return None;
        },
    }
    let equals: usize = find_byte(rest, EQUALS);
    if equals >= rest.len() {
        return None;
    }
    let key: &[u8] = slice_subrange(rest, 0, equals);
    let value: &[u8] = slice_subrange(rest, equals + 1, rest.len());
    proof {
        assert(key@ =~= rest@.take(equals as int));
        assert(value@ =~= rest@.skip(equals + 1));
    }
    Some((key, value))
}

/// Reads the size that records give.
pub fn read_records_size(records: &[u8]) -> (size: Option<u64>)
    ensures
        match size {
            Some(s) => records_size(records@) == Some(s as int),
            None => records_size(records@) is None,
        },
{
    let wanted: [u8; 4] = [115u8, 105, 122, 101];
    assert(wanted@ =~= size_key());
    let mut from: usize = 0;
    assert(records@.skip(0) =~= records@);
    loop
        invariant
            from <= records@.len(),
            wanted@ == size_key(),
            records_size(records@) == records_size(records@.skip(from as int)),
        decreases records@.len() - from,
    {
        let rest: &[u8] = slice_subrange(records, from, records.len());
        assert(rest@ =~= records@.skip(from as int));
        let end: usize = find_byte(rest, NEWLINE);
        if end == 0 {
            return None;
        }
        let line: &[u8] = slice_subrange(rest, 0, end);
        assert(line@ =~= rest@.take(end as int));
        match split_record(line) {
            Some((key, value)) => {
                if bytes_equal(key, wanted.as_slice()) {
                    return parse_decimal_bytes(value);
                }
            },
            None => {
                return None;
            },
        }
        if end >= rest.len() {
            return None;
        }
        assert(rest@.skip(end + 1) =~= records@.skip(from + end + 1));
        from = from + end + 1;
    }
}

/// How many blocks go on behind the header of a sparse file, from `at` on.
fn count_further(data: &[u8], at: usize) -> (count: usize)
    requires
        at <= data@.len(),
    ensures
        count == further_blocks(data@, at as int),
        at + BLOCK_LEN * count <= data@.len(),
{
    let mut count: usize = 0;
    let mut next: usize = at;
    while data.len() - next >= BLOCK_LEN
        invariant
            at <= next <= data.len(),
            next == at + BLOCK_LEN * count,
            further_blocks(data@, at as int) == count + further_blocks(data@, next as int),
        decreases data@.len() - next,
    {
        count = count + 1;
        if data[next + FURTHER_AT] != 1 {
            return count;
        }
        next = next + BLOCK_LEN;
    }
    count
}

/// The place that `at` and `records`, a range of `data`, stand for.
pub open spec fn place_of(data: Seq<u8>, at: usize, records: Option<(usize, usize)>) -> Place {
    Place {
        at: at as int,
        records: match records {
            Some(range) => Some(data.subrange(range.0 as int, range.1 as int)),
            None => None,
        },
    }
}

/// Whether `records` is a range of `data`.
pub open spec fn is_range(data: Seq<u8>, records: Option<(usize, usize)>) -> bool {
    match records {
        Some(range) => range.0 <= range.1 <= data.len(),
        None => true,
    }
}

/// Reads the size of the entry whose header is at a place.
fn read_entry_size(data: &[u8], at: usize, records: Option<(usize, usize)>) -> (size: u64)
    requires
        is_range(data@, records),
        has_header(data@, place_of(data@, at, records)),
    ensures
        size == entry_size(data@, place_of(data@, at, records)),
{
    assert(at + BLOCK_LEN <= data.len());
    let block: &[u8] = slice_subrange(data, at, at + BLOCK_LEN);
    let kind: u8 = block[KIND_AT];
    if let Some((from, to)) = records {
        if kind != RECORDS && kind != GLOBAL_RECORDS && kind != LONG_NAME && kind != LONG_LINK {
            if let Some(size) = read_records_size(slice_subrange(data, from, to)) {
                return size;
            }
        }
    }
    read_size(block).unwrap()
}

/// Goes on from a place with a header, to the next place within `data`.
fn pass_entry(data: &[u8], at: usize, records: Option<(usize, usize)>) -> (next: Option<
    (usize, Option<(usize, usize)>),
>)
    requires
        data@.len() < MAX_LEN,
        is_range(data@, records),
        has_header(data@, place_of(data@, at, records)),
        !claims_huge_size(data@, place_of(data@, at, records)),
    ensures
        ({
            let behind = place_behind(data@, place_of(data@, at, records));
            match next {
                Some((to, found)) => {
                    &&& at + BLOCK_LEN <= to <= data@.len()
                    &&& is_range(data@, found)
                    &&& behind == Some(place_of(data@, to, found))
                },
                None => behind is None || behind->0.at > data@.len(),
            }
        }),
{
    assert(at + BLOCK_LEN <= data.len());
    let block: &[u8] = slice_subrange(data, at, at + BLOCK_LEN);
    let kind: u8 = block[KIND_AT];
    let size: u64 = read_entry_size(data, at, records);
    let start: usize = at + BLOCK_LEN;
    let known: bool = check_known_format(block);
    let gnu: bool = check_gnu(block);
    if known && kind == RECORDS && records.is_some() {
        return None;
    }
    let further: usize = if kind == SPARSE && gnu && block[EXTENDED_AT] == 1 {
        count_further(data, start)
    } else {
        0
    };
    if kind == SPARSE && !gnu {
        return None;
    }
    let rounded: u128 = (size as u128 + 511) / 512 * 512;
    assert(rounded == whole_blocks(size as int));
    let end: u128 = start as u128 + rounded + 512 * further as u128;
    if end > data.len() as u128 {
        return None;
    }
    let to: usize = end as usize;
    if known && kind == RECORDS {
        Some((to, Some((start, start + size as usize))))
    } else if known && (kind == LONG_NAME || kind == LONG_LINK) {
        Some((to, records))
    } else {
        Some((to, None))
    }
}

/// Checks that no sparse file in an archive claims a huge size, by following
/// its headers.
pub fn check_sizes(data: &[u8]) -> (sane: bool)
    ensures
        sane == has_sane_sizes(data@),
{
    if data.len() as u64 >= MAX_LEN {
        return false;
    }
    let mut at: usize = 0;
    let mut records: Option<(usize, usize)> = None;
    let ghost mut n: nat = 0;
    loop
        invariant
            at <= data@.len() < MAX_LEN,
            is_range(data@, records),
            place_reached(data@, n) == Some(place_of(data@, at, records)),
            forall|k: nat|
                k < n && (#[trigger] place_reached(data@, k)) is Some ==> !claims_huge_size(
                    data@,
                    place_reached(data@, k)->0,
                ),
        decreases data@.len() - at,
    {
        let ghost place = place_of(data@, at, records);
        if data.len() - at < BLOCK_LEN || !check_header(
            slice_subrange(data, at, at + BLOCK_LEN),
        ) {
            proof {
                lemma_walk_ends(data@, n);
            }
            return true;
        }
        let block: &[u8] = slice_subrange(data, at, at + BLOCK_LEN);
        if block[KIND_AT] == SPARSE && check_gnu(block) && block[EXTENDED_AT] == 1
            && read_entry_size(data, at, records) >= MAX_LEN {
            assert(claims_huge_size(data@, place));
            return false;
        }
        match pass_entry(data, at, records) {
            Some((to, found)) => {
                proof {
                    assert(place_reached(data@, n + 1) == place_behind(data@, place));
                    n = n + 1;
                }
                at = to;
                records = found;
            },
            None => {
                proof {
                    let behind = place_behind(data@, place);
                    assert(place_reached(data@, n + 1) == behind);
                    if behind is Some {
                        lemma_walk_ends(data@, n + 1);
                    } else {
                        lemma_walk_ends(data@, n);
                    }
                }
                return true;
            },
        }
    }
}

} // verus!
