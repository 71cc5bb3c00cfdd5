//! A disk of blocks: files and free space by turns, two ways of moving the
//! files towards the front, and the checksum of what results.

use crate::grid::chars_of;
use crate::numbers::all_decimal;
use crate::trails::{char_to_digit, digit_value};
use vstd::prelude::*;

verus! {

/// What a block holds that belongs to no file.
pub const FREE: i32 = -1;

/// What the blocks of entry `i` of a layout hold: the number of the file,
/// which is half the place of the entry, at an even place, and nothing at an
/// odd one.
pub open spec fn block_value(i: int) -> i32 {
    if i % 2 == 0 {
        (i / 2) as i32
    } else {
        FREE
    }
}

/// The blocks that the first `n` entries of a layout stand for: for each
/// entry as many blocks as it says.
pub open spec fn blocks_of(layout: Seq<u8>, n: int) -> Seq<i32>
    decreases n,
{
    if n <= 0 {
        Seq::empty()
    } else {
        blocks_of(layout, n - 1) + Seq::new(layout[n - 1] as nat, |j: int| block_value(n - 1))
    }
}

/// The blocks that a layout stands for.
pub fn expand_blocks(layout: &Vec<u8>) -> (blocks: Vec<i32>)
    requires
        layout.len() <= i32::MAX,
    ensures
        blocks@ == blocks_of(layout@, layout.len() as int),
{
    let mut blocks: Vec<i32> = Vec::new();
    let mut i: usize = 0;
    while i < layout.len()
        invariant
            i <= layout.len(),
            layout.len() <= i32::MAX,
            blocks@ == blocks_of(layout@, i as int),
        decreases layout.len() - i,
    {
        let value: i32 = if i % 2 == 0 {
            (i / 2) as i32
        } else {
            FREE
        };
        let count = layout[i];
        let ghost before = blocks@;
        let mut j: u8 = 0;
        while j < count
            invariant
                j <= count,
                value == block_value(i as int),
                blocks@ == before + Seq::new(j as nat, |k: int| block_value(i as int)),
            decreases count - j,
        {
            blocks.push(value);
            j += 1;
            assert(blocks@ =~= before + Seq::new(j as nat, |k: int| block_value(i as int)));
        }
        i += 1;
    }
    blocks
}

/// The blocks `s` with those at `a` and `b` exchanged.
pub open spec fn swapped(s: Seq<i32>, a: int, b: int) -> Seq<i32> {
    s.update(a, s[b]).update(b, s[a])
}

/// The blocks after compaction between `lo` and `hi`: as long as a free block
/// lies before a file block there, the last file block moves into the
/// first free block.
pub open spec fn compacted(s: Seq<i32>, lo: int, hi: int) -> Seq<i32>
    decreases hi - lo,
{
    if lo >= hi || lo < 0 || hi > s.len() {
        s
    } else if s[lo] != FREE {
        compacted(s, lo + 1, hi)
    } else if s[hi - 1] == FREE {
        compacted(s, lo, hi - 1)
    } else {
        compacted(swapped(s, lo, hi - 1), lo + 1, hi - 1)
    }
}

/// In `s` no free block lies before `lo`, and no file block at `hi` or behind it.
pub open spec fn packed_outside(s: Seq<i32>, lo: int, hi: int) -> bool {
    &&& forall|i: int| 0 <= i < lo ==> #[trigger] s[i] != FREE
    &&& forall|i: int| hi <= i < s.len() ==> #[trigger] s[i] == FREE
}

/// Compaction keeps the blocks, each as often as it was there, and leaves no
/// free block before a file block.
pub proof fn lemma_compacted(s: Seq<i32>, lo: int, hi: int)
    requires
        0 <= lo <= hi <= s.len(),
        packed_outside(s, lo, hi),
    ensures
        compacted(s, lo, hi).len() == s.len(),
        compacted(s, lo, hi).to_multiset() == s.to_multiset(),
        exists|n: int| 0 <= n <= s.len() && #[trigger] packed_outside(compacted(s, lo, hi), n, n),
    decreases hi - lo,
{
    if lo >= hi {
        assert(packed_outside(s, lo, lo));
    } else if s[lo] != FREE {
        lemma_compacted(s, lo + 1, hi);
    } else if s[hi - 1] == FREE {
        lemma_compacted(s, lo, hi - 1);
    } else {
        let t = swapped(s, lo, hi - 1);
        assert(t.to_multiset() =~= s.to_multiset()) by {
            broadcast use vstd::multiset::group_multiset_axioms;

            let mid = s.update(lo, s[hi - 1]);
            vstd::seq_lib::to_multiset_update(s, lo, s[hi - 1]);
            vstd::seq_lib::to_multiset_update(mid, hi - 1, s[lo]);
            vstd::seq_lib::to_multiset_contains(s, s[lo]);
            vstd::seq_lib::to_multiset_contains(s, s[hi - 1]);
            assert(mid[hi - 1] == s[hi - 1]);
            assert(s.contains(s[lo]) && s.contains(s[hi - 1]));
        }
        lemma_compacted(t, lo + 1, hi - 1);
    }
}

/// Moves file blocks from the end into the free blocks at the front until no
/// free block lies before a file block.
pub fn compact_blocks(blocks: &mut Vec<i32>)
    ensures
        final(blocks)@ == compacted(old(blocks)@, 0, old(blocks)@.len() as int),
{
    let mut start: usize = 0;
    let mut end: usize = blocks.len();
    while start < end
        invariant
            start <= end <= blocks.len(),
            blocks@.len() == old(blocks)@.len(),
            compacted(blocks@, start as int, end as int) == compacted(
                old(blocks)@,
                0,
                old(blocks)@.len() as int,
            ),
        decreases end - start,
    {
        if blocks[start] != FREE {
            start += 1;
        } else if blocks[end - 1] == FREE {
            end -= 1;
        } else {
            let moved = blocks[end - 1];
            let ghost before = blocks@;
            blocks.set(start, moved);
            blocks.set(end - 1, FREE);
            assert(blocks@ =~= swapped(before, start as int, end - 1));
            start += 1;
            end -= 1;
        }
    }
}

/// The sum, over the first `n` blocks, of the place of the block times the
/// number of its file; free blocks count nothing.
pub open spec fn checksum(s: Seq<i32>, n: int) -> int
    decreases n,
{
    if n <= 0 {
        0
    } else {
        checksum(s, n - 1) + (if s[n - 1] != FREE {
            (n - 1) * s[n - 1]
        } else {
            0
        })
    }
}

/// The checksum over each number of first blocks fits in an `i64`.
pub open spec fn checksums_fit(s: Seq<i32>) -> bool {
    forall|n: int| 0 <= n <= s.len() ==> i64::MIN <= #[trigger] checksum(s, n) <= i64::MAX
}

/// The sum, over the blocks of files, of place times file number.
pub fn calculate_checksum(data: &[i32]) -> (sum: i64)
    requires
        checksums_fit(data@),
    ensures
        sum == checksum(data@, data@.len() as int),
{
    let mut sum: i64 = 0;
    let mut i: usize = 0;
    while i < data.len()
        invariant
            i <= data.len(),
            checksums_fit(data@),
            sum == checksum(data@, i as int),
        decreases data.len() - i,
    {
        proof {
            assert(i64::MIN <= checksum(data@, i as int) <= i64::MAX);
            assert(i64::MIN <= checksum(data@, i as int + 1) <= i64::MAX);
        }
        let s = data[i];
        if s != FREE {
            let ghost term = i * s;
            assert(checksum(data@, i as int + 1) == sum + term);
            let wide: i128 = sum as i128 + (i as i128) * (s as i128);
            sum = wide as i64;
        }
        i += 1;
    }
    sum
}

/// A file on the disk: its number, its length in blocks, and the place of its first block.
#[derive(Clone, Copy, Debug, PartialEq, Eq, Structural)]
pub struct FileData {
    pub id: isize,
    pub length: u32,
    pub start: usize,
}

/// A stretch of free blocks: its length, and the place of its first block.
#[derive(Clone, Copy, Debug, PartialEq, Eq, Structural)]
pub struct FreeSpace {
    pub length: u32,
    pub start: usize,
}

/// The place behind the first `n` entries of a layout.
pub open spec fn offset_of(layout: Seq<u8>, n: int) -> int
    decreases n,
{
    if n <= 0 {
        0
    } else {
        offset_of(layout, n - 1) + layout[n - 1]
    }
}

/// The files that the first `n` entries of a layout stand for.
pub open spec fn files_of(layout: Seq<u8>, n: int) -> Seq<FileData>
    decreases n,
{
    if n <= 0 {
        Seq::empty()
    } else if (n - 1) % 2 == 0 {
        files_of(layout, n - 1).push(
            FileData {
                id: ((n - 1) / 2) as isize,
                length: layout[n - 1] as u32,
                start: offset_of(layout, n - 1) as usize,
            },
        )
    } else {
        files_of(layout, n - 1)
    }
}

/// The free stretches that the first `n` entries of a layout stand for.
pub open spec fn free_of(layout: Seq<u8>, n: int) -> Seq<FreeSpace>
    decreases n,
{
    if n <= 0 {
        Seq::empty()
    } else if (n - 1) % 2 == 1 {
        free_of(layout, n - 1).push(
            FreeSpace { length: layout[n - 1] as u32, start: offset_of(layout, n - 1) as usize },
        )
    } else {
        free_of(layout, n - 1)
    }
}

/// The place behind the first `n` entries is at most 255 for each of them.
pub proof fn lemma_offset_bound(layout: Seq<u8>, n: int)
    requires
        0 <= n <= layout.len(),
    ensures
        0 <= offset_of(layout, n) <= 255 * n,
    decreases n,
{
    if n > 0 {
        lemma_offset_bound(layout, n - 1);
    }
}

/// The files and the free stretches that a layout stands for, each in the
/// order of the layout.
pub fn read_disk_map(layout: &Vec<u8>) -> (disk: (Vec<FileData>, Vec<FreeSpace>))
    requires
        255 * layout.len() <= isize::MAX,
    ensures
        disk.0@ == files_of(layout@, layout.len() as int),
        disk.1@ == free_of(layout@, layout.len() as int),
{
    let mut file_data: Vec<FileData> = Vec::new();
    let mut free_space_data: Vec<FreeSpace> = Vec::new();
    let mut current_start: usize = 0;
    let mut i: usize = 0;
    while i < layout.len()
        invariant
            i <= layout.len(),
            255 * layout.len() <= isize::MAX,
            current_start == offset_of(layout@, i as int),
            file_data@ == files_of(layout@, i as int),
            free_space_data@ == free_of(layout@, i as int),
        decreases layout.len() - i,
    {
        proof {
            lemma_offset_bound(layout@, i as int);
            lemma_offset_bound(layout@, i as int + 1);
        }
        let length = layout[i] as u32;
        if i % 2 == 0 {
            file_data.push(FileData { id: (i / 2) as isize, length, start: current_start });
        } else {
            free_space_data.push(FreeSpace { length, start: current_start });
        }
        current_start = current_start + length as usize;
        i += 1;
    }
    (file_data, free_space_data)
}

/// The place in `free` of the first stretch among the first `n` that is at
/// least `length` long, or `n` where there is none.
pub open spec fn first_fit(free: Seq<FreeSpace>, length: u32, n: int) -> int
    decreases n,
{
    if n <= 0 {
        0
    } else {
        let before = first_fit(free, length, n - 1);
        if before < n - 1 || free[n - 1].length < length {
            if before < n - 1 {
                before
            } else {
                n
            }
        } else {
            n - 1
        }
    }
}

/// The first fit is the first stretch that is long enough.
pub proof fn lemma_first_fit(free: Seq<FreeSpace>, length: u32, n: int)
    requires
        0 <= n <= free.len(),
    ensures
        0 <= first_fit(free, length, n) <= n,
        forall|i: int| 0 <= i < first_fit(free, length, n) ==> (#[trigger] free[i]).length < length,
        first_fit(free, length, n) < n ==> free[first_fit(free, length, n)].length >= length,
    decreases n,
{
    if n > 0 {
        lemma_first_fit(free, length, n - 1);
    }
}

/// Every free stretch ends at a place that fits in a `usize`.
pub open spec fn spans_fit(free: Seq<FreeSpace>) -> bool {
    forall|i: int| 0 <= i < free.len() ==> (#[trigger] free[i]).start + free[i].length <= usize::MAX
}

/// What becomes of a file and of the free stretches when the file is
/// offered a move: it moves to the start of the first stretch that is long
/// enough, unless that lies behind the file; the stretch gets shorter by
/// the file, or goes where the file fills it.
pub open spec fn placed(file: FileData, free: Seq<FreeSpace>) -> (FileData, Seq<FreeSpace>) {
    let at = first_fit(free, file.length, free.len() as int);
    if at < free.len() && free[at].start <= file.start {
        (
            FileData { id: file.id, length: file.length, start: free[at].start },
            if free[at].length == file.length {
                free.remove(at)
            } else {
                free.update(
                    at,
                    FreeSpace {
                        length: (free[at].length - file.length) as u32,
                        start: (free[at].start + file.length) as usize,
                    },
                )
            },
        )
    } else {
        (file, free)
    }
}

/// The files and the free stretches after the first `n` files were offered
/// a move, one after the other.
pub open spec fn moved(files: Seq<FileData>, free: Seq<FreeSpace>, n: int) -> (
    Seq<FileData>,
    Seq<FreeSpace>,
)
    decreases n,
{
    if n <= 0 {
        (files, free)
    } else {
        let (done, left) = moved(files, free, n - 1);
        let (file, rest) = placed(done[n - 1], left);
        (done.update(n - 1, file), rest)
    }
}

/// Offers each file a move, in the order of the list.
pub fn move_files(files: &mut Vec<FileData>, free: &mut Vec<FreeSpace>)
    requires
        spans_fit(old(free)@),
    ensures
        final(files)@ == moved(old(files)@, old(free)@, old(files)@.len() as int).0,
        final(free)@ == moved(old(files)@, old(free)@, old(files)@.len() as int).1,
        spans_fit(final(free)@),
{
    let mut i: usize = 0;
    while i < files.len()
        invariant
            i <= files.len(),
            files@.len() == old(files)@.len(),
            spans_fit(free@),
            files@ == moved(old(files)@, old(free)@, i as int).0,
            free@ == moved(old(files)@, old(free)@, i as int).1,
            forall|k: int| i <= k < files@.len() ==> #[trigger] files@[k] == old(files)@[k],
        decreases files.len() - i,
    {
        let file = files[i];
        let ghost free_before = free@;
        let ghost files_before = files@;
        let mut at: usize = 0;
        while at < free.len() && file.length > free[at].length
            invariant
                at <= free.len(),
                free@ == free_before,
                at == first_fit(free@, file.length, at as int),
                forall|k: int| 0 <= k < at ==> (#[trigger] free@[k]).length < file.length,
            decreases free.len() - at,
        {
            at += 1;
        }
        proof {
            lemma_first_fit(free@, file.length, free@.len() as int);
            lemma_first_fit_found(free@, file.length, at as int, free@.len() as int);
            assert(moved(old(files)@, old(free)@, i as int + 1) == ({
                let (done, left) = moved(old(files)@, old(free)@, i as int);
                let (f, rest) = placed(done[i as int], left);
                (done.update(i as int, f), rest)
            }));
        }
        if at < free.len() {
            let space = free[at];
            if space.start <= file.start {
                files.set(i, FileData { id: file.id, length: file.length, start: space.start });
                if space.length == file.length {
                    free.remove(at);
                } else {
                    free.set(
                        at,
                        FreeSpace {
                            length: space.length - file.length,
                            start: space.start + file.length as usize,
                        },
                    );
                }
            } else {
                assert(files@ =~= files_before.update(i as int, file));
            }
        } else {
            assert(files@ =~= files_before.update(i as int, file));
        }
        i += 1;
    }
}

/// Where the search for a fit stops, the first fit lies.
pub proof fn lemma_first_fit_found(free: Seq<FreeSpace>, length: u32, at: int, n: int)
    requires
        0 <= at <= n <= free.len(),
        forall|k: int| 0 <= k < at ==> (#[trigger] free[k]).length < length,
        at < free.len() ==> free[at].length >= length,
    ensures
        first_fit(free, length, n) == (if at < n {
            at
        } else {
            n
        }),
{
    lemma_first_fit(free, length, n);
    let found = first_fit(free, length, n);
    if at < n {
        if found < at {
            assert(free[found].length < length);
        }
        if found > at {
            assert(free[at].length < length);
        }
    } else {
        if found < n {
            assert(free[found].length < length);
        }
    }
}

/// The sum of place times file number over the first `k` blocks of a file.
pub open spec fn file_sum(file: FileData, k: int) -> int
    decreases k,
{
    if k <= 0 {
        0
    } else {
        file_sum(file, k - 1) + (file.start + (k - 1)) * file.id
    }
}

/// The sum of place times file number over all blocks of the first `n` files.
pub open spec fn files_checksum(files: Seq<FileData>, n: int) -> int
    decreases n,
{
    if n <= 0 {
        0
    } else {
        files_checksum(files, n - 1) + file_sum(files[n - 1], files[n - 1].length as int)
    }
}

/// Every sum on the way to the checksum of the files fits in an `i64`.
pub open spec fn file_sums_fit(files: Seq<FileData>) -> bool {
    forall|n: int, k: int|
        0 <= n < files.len() && 0 <= k <= files[n].length ==> i64::MIN <= files_checksum(files, n)
            + #[trigger] file_sum(files[n], k) <= i64::MAX && i64::MIN <= file_sum(files[n], k)
            <= i64::MAX
}

/// The sum, over all blocks of all files, of place times file number.
pub fn calcualte_file_checksum(data: &[FileData]) -> (sum: i64)
    requires
        file_sums_fit(data@),
    ensures
        sum == files_checksum(data@, data@.len() as int),
{
    let mut sum: i64 = 0;
    let mut n: usize = 0;
    while n < data.len()
        invariant
            n <= data.len(),
            file_sums_fit(data@),
            sum == files_checksum(data@, n as int),
        decreases data.len() - n,
    {
        let file = data[n];
        let mut fileacc: i64 = 0;
        let mut i: u32 = 0;
        proof {
            assert(file_sum(file, 0) == 0);
        }
        while i < file.length
            invariant
                n < data.len(),
                file == data@[n as int],
                i <= file.length,
                file_sums_fit(data@),
                fileacc == file_sum(file, i as int),
                sum == files_checksum(data@, n as int),
            decreases file.length - i,
        {
            proof {
                assert(i64::MIN <= file_sum(data@[n as int], i as int) <= i64::MAX);
                assert(i64::MIN <= file_sum(data@[n as int], i as int + 1) <= i64::MAX);
                assert(file_sum(file, i as int + 1) == fileacc + (file.start + i) * file.id);
            }
            let term: i128 = (file.start as i128 + i as i128) * (file.id as i128);
            fileacc = (fileacc as i128 + term) as i64;
            i += 1;
        }
        proof {
            assert(i64::MIN <= files_checksum(data@, n as int) + file_sum(
                data@[n as int],
                file.length as int,
            ) <= i64::MAX);
        }
        sum = sum + fileacc;
        n += 1;
    }
    sum
}

/// The entries that the digits of `text` stand for.
pub open spec fn layout_of(text: Seq<char>) -> Seq<u8> {
    Seq::new(text.len(), |i: int| digit_value(text[i])->0 as u8)
}

/// Reads a layout: each decimal digit is an entry. `None` where a character
/// is no decimal digit.
pub fn parse_layout(text: &str) -> (layout: Option<Vec<u8>>)
    ensures
        all_decimal(text@) ==> layout is Some,
        layout matches Some(entries) ==> all_decimal(text@) && entries@ == layout_of(text@),
{
    let chars = chars_of(text);
    let mut entries: Vec<u8> = Vec::new();
    let mut i: usize = 0;
    while i < chars.len()
        invariant
            i <= chars.len(),
            chars@ == text@,
            all_decimal(text@.take(i as int)),
            entries@ == layout_of(text@.take(i as int)),
        decreases chars.len() - i,
    {
        match char_to_digit(chars[i]) {
            Some(d) => {
                entries.push(d);
                proof {
                    let before = text@.take(i as int);
                    let after = text@.take(i as int + 1);
                    assert forall|k: int| 0 <= k < after.len() implies digit_value(#[trigger] after[k]) is Some by {
                        if k < before.len() {
                            assert(after[k] == before[k]);
                        }
                    }
                    assert(entries@ =~= layout_of(after));
                }
            },
            None => {
                return None;
            },
        }
        i += 1;
    }
    assert(text@.take(chars.len() as int) =~= text@);
    Some(entries)
}

/// The blocks of a layout after compaction.
pub open spec fn part_one_blocks(layout: Seq<u8>) -> Seq<i32> {
    compacted(blocks_of(layout, layout.len() as int), 0, blocks_of(layout, layout.len() as int).len() as int)
}

/// The checksum of the blocks of a layout after they were compacted block by block.
pub fn do_part_one(layout: &Vec<u8>) -> (sum: i64)
    requires
        layout.len() <= i32::MAX,
        checksums_fit(part_one_blocks(layout@)),
    ensures
        sum == checksum(part_one_blocks(layout@), part_one_blocks(layout@).len() as int),
{
    let mut blocks = expand_blocks(layout);
    compact_blocks(&mut blocks);
    calculate_checksum(blocks.as_slice())
}

/// The files in the opposite order.
fn reversed(files: &Vec<FileData>) -> (out: Vec<FileData>)
    ensures
        out@ == files@.reverse(),
{
    let mut out: Vec<FileData> = Vec::new();
    let n = files.len();
    let mut i: usize = 0;
    while i < n
        invariant
            i <= n,
            n == files.len(),
            out@.len() == i,
            forall|k: int| 0 <= k < i ==> #[trigger] out@[k] == files@[n - 1 - k],
        decreases n - i,
    {
        out.push(files[n - 1 - i]);
        i += 1;
    }
    assert(out@ =~= files@.reverse());
    out
}

/// The free stretches of a layout end where the layout ends, or before.
pub proof fn lemma_free_of_fits(layout: Seq<u8>, n: int)
    requires
        0 <= n <= layout.len(),
        255 * layout.len() <= isize::MAX,
    ensures
        spans_fit(free_of(layout, n)),
    decreases n,
{
    if n > 0 {
        lemma_free_of_fits(layout, n - 1);
        lemma_offset_bound(layout, n - 1);
        let free = free_of(layout, n);
        let before = free_of(layout, n - 1);
        assert forall|i: int| 0 <= i < free.len() implies (#[trigger] free[i]).start + free[i].length
            <= usize::MAX by {
            if i < before.len() {
                assert(free[i] == before[i]);
            }
        }
    }
}

/// The files of a layout after each was offered a move, from the last file
/// to the first.
pub open spec fn part_two_files(layout: Seq<u8>) -> Seq<FileData> {
    moved(
        files_of(layout, layout.len() as int).reverse(),
        free_of(layout, layout.len() as int),
        files_of(layout, layout.len() as int).len() as int,
    ).0
}

/// The checksum of the files of a layout after they were moved file by
/// file: each file, from the last to the first, into the first free stretch
/// before it that is long enough.
pub fn do_part_two(layout: &Vec<u8>) -> (sum: i64)
    requires
        255 * layout.len() <= isize::MAX,
        file_sums_fit(part_two_files(layout@)),
    ensures
        sum == files_checksum(part_two_files(layout@), part_two_files(layout@).len() as int),
{
    let (file_data, mut free_space_data) = read_disk_map(layout);
    let mut file_data = reversed(&file_data);
    proof {
        lemma_free_of_fits(layout@, layout@.len() as int);
    }
    move_files(&mut file_data, &mut free_space_data);
    calcualte_file_checksum(file_data.as_slice())
}

} // verus!
