//! Puzzle definitions as delivered by a nonogram site, and the decoder that
//! turns the site's obfuscated number array into structured run lists.
//!
//! Only the decoding is done here: fetching pages over the network is left
//! to the surrounding application, which hands the page text in.

use vstd::prelude::*;
use vstd::string::StringSliceAdditionalSpecFns;

verus! {

/// Which kind of puzzle a page holds.
#[derive(Debug, Clone, Copy, PartialEq, Eq, Structural)]
pub enum PuzzleKind {
    Color,
    BlackWhite,
}

/// One run of a line: `len` contiguous cells of color `color_id`.
#[derive(Debug, Clone, PartialEq, Eq, Structural)]
pub struct Group {
    pub len: usize,
    pub color_id: usize,
}

/// A parsed puzzle: its palette and the run lists of every row and column.
#[derive(Debug, Clone, PartialEq, Eq)]
pub struct PuzzleData {
    pub color_panel: Vec<String>,
    pub row_groups: Vec<Vec<Group>>,
    pub col_groups: Vec<Vec<Group>>,
}

/// Why a page could not be turned into a puzzle.
#[derive(Debug)]
pub enum CrawlError {
    Network(String),
    MissingData(&'static str),
    InvalidData(&'static str),
}

/// Relies on `String::push`: appends one character to the string.
pub assume_specification[ String::push ](s: &mut String, ch: char)
    ensures
        final(s)@ == old(s)@.push(ch),
;

/// The value an `i64` store would keep: the exact value reduced to the
/// `i64` range.
pub open spec fn as_i64(x: int) -> int {
    (x as i64) as int
}

/// Rust's `%` on machine integers: the sign follows the dividend.
pub open spec fn trunc_rem(a: int, b: int) -> int {
    let m = (if a < 0 {
        -a
    } else {
        a
    }) % (if b < 0 {
        -b
    } else {
        b
    });
    if a < 0 {
        -m
    } else {
        m
    }
}

/// The site's script reduces every decoded number this way: a remainder
/// folded into `0 .. b`, with `0` when the divisor is `0`.
pub open spec fn mod_js(a: int, b: int) -> int {
    if b == 0 {
        0
    } else {
        let r = trunc_rem(a, b);
        if r < 0 {
            as_i64(r + b)
        } else {
            r
        }
    }
}

/// `needle` occurs in `h` at position `i`.
pub open spec fn subseq_at(h: Seq<u8>, needle: Seq<u8>, i: int) -> bool {
    0 <= i && i + needle.len() <= h.len() && h.subrange(i, i + needle.len()) == needle
}

/// `needle` occurs somewhere in `h`.
pub open spec fn has_subseq(h: Seq<u8>, needle: Seq<u8>) -> bool {
    exists|i: int| subseq_at(h, needle, i)
}

/// `needle` occurs at `i` and nowhere earlier.
pub open spec fn found_first(h: Seq<u8>, needle: Seq<u8>, i: int) -> bool {
    subseq_at(h, needle, i) && forall|i2: int| 0 <= i2 < i ==> !subseq_at(h, needle, i2)
}

/// The position of the first occurrence of `needle` in `h`.
pub open spec fn first_index(h: Seq<u8>, needle: Seq<u8>) -> int {
    choose|i: int| found_first(h, needle, i)
}

/// Wherever `needle` occurs, it has a first occurrence, and that is
/// `first_index`.
pub proof fn lemma_first_index(h: Seq<u8>, needle: Seq<u8>, p: int)
    requires
        subseq_at(h, needle, p),
    ensures
        found_first(h, needle, first_index(h, needle)),
        first_index(h, needle) <= p,
    decreases p,
{
    if exists|i2: int| 0 <= i2 < p && subseq_at(h, needle, i2) {
        let p2 = choose|i2: int| 0 <= i2 < p && subseq_at(h, needle, i2);
        lemma_first_index(h, needle, p2);
    } else {
        assert(found_first(h, needle, p));
        let f = first_index(h, needle);
        assert(found_first(h, needle, f));
        if f > p {
            assert(!subseq_at(h, needle, p));
        }
    }
}

/// The bytes of the script fragment that opens the data array.
pub open spec fn d_marker() -> Seq<u8> {
    seq![
        'v' as u8,
        'a' as u8,
        'r' as u8,
        ' ' as u8,
        'd' as u8,
        '=' as u8,
    ]
}

/// The bytes that close the data array.
pub open spec fn end_marker() -> Seq<u8> {
    seq![']' as u8, ';' as u8]
}

/// The numbers read off the array text by the scanner, starting at `i`
/// with a number `cur` under way (`sign` applies when it is pushed) and
/// `nums` already collected.  A minus starts a new number, digits extend
/// the current one, anything else ends it.
pub open spec fn scanned_nums(
    s: Seq<u8>,
    i: int,
    cur: Option<int>,
    sign: int,
    nums: Seq<int>,
) -> Seq<int>
    decreases s.len() - i,
{
    if i >= s.len() {
        match cur {
            Some(v) => nums.push(sign * v),
            None => nums,
        }
    } else {
        let ch = s[i];
        if ch == '-' as u8 {
            let flushed = match cur {
                Some(v) => nums.push(sign * v),
                None => nums,
            };
            scanned_nums(s, i + 1, Some(0), -1, flushed)
        } else if '0' as u8 <= ch <= '9' as u8 {
            let prev = match cur {
                Some(v) => v,
                None => 0,
            };
            scanned_nums(s, i + 1, Some(prev * 10 + (ch - '0' as u8)), sign, nums)
        } else {
            match cur {
                Some(v) => scanned_nums(s, i + 1, None, 1, nums.push(sign * v)),
                None => scanned_nums(s, i + 1, None, sign, nums),
            }
        }
    }
}

/// All numbers in the array text.
pub open spec fn array_nums(s: Seq<u8>) -> Seq<int> {
    scanned_nums(s, 0, None, 1, Seq::empty())
}

/// Every scanned number fits a 64-bit signed integer.
pub open spec fn nums_fit(nums: Seq<int>) -> bool {
    forall|k: int| 0 <= k < nums.len() ==> -i64::MAX <= #[trigger] nums[k] <= i64::MAX
}

/// The text between the opening marker and the closing bracket, bracket
/// included.
pub open spec fn d_slice(h: Seq<u8>) -> Seq<u8> {
    let tail = h.subrange(first_index(h, d_marker()) + d_marker().len(), h.len() as int);
    tail.subrange(0, first_index(tail, end_marker()) + 1)
}

/// The numbers of `h`'s data array, in groups of four.
pub open spec fn quads_view(nums: Seq<int>) -> Seq<Seq<int>> {
    Seq::new(nums.len() / 4, |q: int| Seq::new(4, |j: int| nums[4 * q + j]))
}

/// The exact values of a vector of number quadruples.
pub open spec fn data_view(v: Seq<[i64; 4]>) -> Seq<Seq<int>> {
    v.map_values(|a: [i64; 4]| a@.map_values(|x: i64| x as int))
}

/// What `extract_d_array` returns for a page with byte text `h`.
pub open spec fn extract_post(h: Seq<u8>, r: Result<Vec<[i64; 4]>, CrawlError>) -> bool {
    if !has_subseq(h, d_marker()) {
        &&& r matches Err(CrawlError::MissingData(m))
        &&& (r matches Err(CrawlError::MissingData(m)) ==> m@ == "var d array"@)
    } else if !has_subseq(
        h.subrange(first_index(h, d_marker()) + d_marker().len(), h.len() as int),
        end_marker(),
    ) {
        &&& r matches Err(CrawlError::MissingData(m))
        &&& (r matches Err(CrawlError::MissingData(m)) ==> m@ == "d array end"@)
    } else {
        let nums = array_nums(d_slice(h));
        if !nums_fit(nums) {
            &&& r matches Err(CrawlError::InvalidData(m))
            &&& (r matches Err(CrawlError::InvalidData(m)) ==> m@ == "number out of range"@)
        } else if nums.len() % 4 != 0 {
            &&& r matches Err(CrawlError::InvalidData(m))
            &&& (r matches Err(CrawlError::InvalidData(m)) ==> m@ == "d array length"@)
        } else {
            &&& r matches Ok(out)
            &&& (r matches Ok(out) ==> data_view(out@) == quads_view(nums))
        }
    }
}

/// The position of the first occurrence of `needle` in `h`, scanning left
/// to right.
fn find_first(h: &[u8], needle: &Vec<u8>) -> (r: Option<usize>)
    ensures
        match r {
            Some(i) => found_first(h@, needle@, i as int),
            None => !has_subseq(h@, needle@),
        },
{
    let hlen = h.len();
    let nlen = needle.len();
    if nlen > hlen {
        proof {
            assert forall|i: int| !subseq_at(h@, needle@, i) by {}
        }
        return None;
    }
    let mut i: usize = 0;
    while i <= hlen - nlen
        invariant
            nlen <= hlen,
            hlen == h@.len(),
            nlen == needle@.len(),
            i <= hlen - nlen + 1,
            forall|i2: int| 0 <= i2 < i ==> !subseq_at(h@, needle@, i2),
        decreases hlen - nlen - i + 1,
    {
        let mut j: usize = 0;
        let mut matches_here = true;
        while j < nlen
            invariant
                i + nlen <= hlen,
                hlen == h@.len(),
                nlen == needle@.len(),
                j <= nlen,
                matches_here ==> forall|q: int| 0 <= q < j ==> h@[i + q] == needle@[q],
                !matches_here ==> exists|q: int| 0 <= q < nlen && h@[i + q] != needle@[q],
            decreases nlen - j,
        {
            if h[i + j] != needle[j] {
                matches_here = false;
            }
            j = j + 1;
        }
        if matches_here {
            proof {
                assert(h@.subrange(i as int, i + needle@.len()) =~= needle@);
                assert(subseq_at(h@, needle@, i as int));
            }
            return Some(i);
        }
        proof {
            assert(!subseq_at(h@, needle@, i as int)) by {
                let q = choose|q: int| 0 <= q < nlen && h@[i + q] != needle@[q];
                if subseq_at(h@, needle@, i as int) {
                    assert(h@.subrange(i as int, i + needle@.len())[q] == needle@[q]);
                }
            }
        }
        i = i + 1;
    }
    proof {
        assert forall|i2: int| !subseq_at(h@, needle@, i2) by {
            if 0 <= i2 < i {
            } else if i2 + needle@.len() > h@.len() {
            }
        }
    }
    None
}

/// Numbers collected so far, as exact values.
pub open spec fn i64s_view(v: Seq<i64>) -> Seq<int> {
    v.map_values(|x: i64| x as int)
}

/// The scan only appends to the numbers already collected.
proof fn lemma_scan_prefix(s: Seq<u8>, i: int, cur: Option<int>, sign: int, nums: Seq<int>)
    ensures
        scanned_nums(s, i, cur, sign, nums).len() >= nums.len(),
        forall|k: int| 0 <= k < nums.len()
            ==> #[trigger] scanned_nums(s, i, cur, sign, nums)[k] == nums[k],
    decreases s.len() - i,
{
    if i >= s.len() {
    } else {
        let ch = s[i];
        if ch == '-' as u8 {
            let flushed = match cur {
                Some(v) => nums.push(sign * v),
                None => nums,
            };
            lemma_scan_prefix(s, i + 1, Some(0), -1, flushed);
        } else if '0' as u8 <= ch <= '9' as u8 {
            let prev = match cur {
                Some(v) => v,
                None => 0,
            };
            lemma_scan_prefix(s, i + 1, Some(prev * 10 + (ch - '0' as u8)), sign, nums);
        } else {
            match cur {
                Some(v) => lemma_scan_prefix(s, i + 1, None, 1, nums.push(sign * v)),
                None => lemma_scan_prefix(s, i + 1, None, sign, nums),
            }
        }
    }
}

/// With a number of value `v` under way, the scan returns some number at
/// least `v` in magnitude.
proof fn lemma_scan_lower_bound(s: Seq<u8>, i: int, v: int, sign: int, nums: Seq<int>)
    requires
        v >= 0,
        sign == 1 || sign == -1,
    ensures
        exists|k: int|
            0 <= k < scanned_nums(s, i, Some(v), sign, nums).len()
                && ((#[trigger] scanned_nums(s, i, Some(v), sign, nums)[k]) >= v
                || scanned_nums(s, i, Some(v), sign, nums)[k] <= -v),
    decreases s.len() - i,
{
    let res = scanned_nums(s, i, Some(v), sign, nums);
    if i >= s.len() {
        assert(res[nums.len() as int] == sign * v);
    } else {
        let ch = s[i];
        if ch == '-' as u8 {
            let flushed = nums.push(sign * v);
            lemma_scan_prefix(s, i + 1, Some(0), -1, flushed);
            assert(res[nums.len() as int] == sign * v);
        } else if '0' as u8 <= ch <= '9' as u8 {
            lemma_scan_lower_bound(s, i + 1, v * 10 + (ch - '0' as u8), sign, nums);
        } else {
            let flushed = nums.push(sign * v);
            lemma_scan_prefix(s, i + 1, None, 1, flushed);
            assert(res[nums.len() as int] == sign * v);
        }
    }
}

/// Read the obfuscated number array out of a page: the text between
/// `var d=` and the closing `];`, scanned for integers, in groups of four.
pub fn extract_d_array(html: &str) -> (r: Result<Vec<[i64; 4]>, CrawlError>)
    ensures
        extract_post(html.spec_bytes(), r),
{
    let bytes = html.as_bytes();
    let blen = bytes.len();
    let mut marker: Vec<u8> = Vec::new();
    marker.push('v' as u8);
    marker.push('a' as u8);
    marker.push('r' as u8);
    marker.push(' ' as u8);
    marker.push('d' as u8);
    marker.push('=' as u8);
    proof {
        assert(marker@ =~= d_marker());
    }
    let start = match find_first(bytes, &marker) {
        Some(p) => p,
        None => {
            return Err(CrawlError::MissingData("var d array"));
        },
    };
    proof {
        lemma_first_index(bytes@, d_marker(), start as int);
        assert(first_index(bytes@, d_marker()) == start) by {
            let f = first_index(bytes@, d_marker());
            if f < start {
                assert(!subseq_at(bytes@, d_marker(), f));
            }
            if f > start {
                assert(!subseq_at(bytes@, d_marker(), start as int));
            }
        }
    }
    proof {
        assert(start + marker@.len() <= bytes@.len());
    }
    let p0 = start + marker.len();
    let tail: &[u8] = &bytes[p0..blen];
    let mut endm: Vec<u8> = Vec::new();
    endm.push(']' as u8);
    endm.push(';' as u8);
    proof {
        assert(endm@ =~= end_marker());
    }
    let end = match find_first(tail, &endm) {
        Some(e) => e,
        None => {
            return Err(CrawlError::MissingData("d array end"));
        },
    };
    proof {
        lemma_first_index(tail@, end_marker(), end as int);
        assert(first_index(tail@, end_marker()) == end) by {
            let f = first_index(tail@, end_marker());
            if f < end {
                assert(!subseq_at(tail@, end_marker(), f));
            }
            if f > end {
                assert(!subseq_at(tail@, end_marker(), end as int));
            }
        }
    }
    let slice: &[u8] = &tail[0..end + 1];
    proof {
        assert(slice@ =~= d_slice(bytes@));
    }
    let slen = slice.len();
    let mut nums: Vec<i64> = Vec::new();
    let mut cur: Option<i64> = None;
    let mut sign: i64 = 1;
    let ghost target_nums = array_nums(slice@);
    proof {
        assert(i64s_view(nums@) =~= Seq::<int>::empty());
    }
    let mut i: usize = 0;
    while i < slen
        invariant
            has_subseq(html.spec_bytes(), d_marker()),
            has_subseq(
                html.spec_bytes().subrange(
                    first_index(html.spec_bytes(), d_marker()) + d_marker().len(),
                    html.spec_bytes().len() as int,
                ),
                end_marker(),
            ),
            target_nums == array_nums(d_slice(html.spec_bytes())),
            i <= slen,
            slen == slice@.len(),
            sign == 1 || sign == -1,
            (match cur {
                Some(v) => v >= 0,
                None => true,
            }),
            forall|k: int| 0 <= k < nums@.len()
                ==> -i64::MAX <= (#[trigger] nums@[k]) <= i64::MAX,
            target_nums == scanned_nums(
                slice@,
                i as int,
                (match cur {
                    Some(v) => Some(v as int),
                    None => None,
                }),
                sign as int,
                i64s_view(nums@),
            ),
        decreases slen - i,
    {
        let ghost nums0 = i64s_view(nums@);
        let ghost cur0: Option<int> = match cur {
            Some(v) => Some(v as int),
            None => None,
        };
        let ghost sign0 = sign as int;
        let ch = slice[i];
        if ch == '-' as u8 {
            if let Some(v) = cur {
                let sv = if sign < 0 {
                    -v
                } else {
                    v
                };
                nums.push(sv);
            }
            cur = Some(0);
            sign = -1;
            proof {
                let flushed = match cur0 {
                    Some(v) => nums0.push(sign0 * v),
                    None => nums0,
                };
                assert(i64s_view(nums@) =~= flushed);
                assert(target_nums == scanned_nums(slice@, i + 1, Some(0int), -1, flushed));
            }
        } else if ch >= '0' as u8 && ch <= '9' as u8 {
            let d = ch - '0' as u8;
            let prev: i64 = match cur {
                Some(v) => v,
                None => 0,
            };
            let next128: i128 = (prev as i128) * 10 + (d as i128);
            proof {
                assert(target_nums == scanned_nums(
                    slice@,
                    i + 1,
                    Some(prev as int * 10 + d as int),
                    sign0,
                    nums0,
                ));
            }
            if next128 > i64::MAX as i128 {
                proof {
                    lemma_scan_lower_bound(
                        slice@,
                        i + 1,
                        prev as int * 10 + d as int,
                        sign as int,
                        i64s_view(nums@),
                    );
                    let v = prev as int * 10 + d as int;
                    let scanned = scanned_nums(slice@, i + 1, Some(v), sign as int, i64s_view(nums@));
                    let k = choose|k: int|
                        0 <= k < scanned.len() && ((#[trigger] scanned[k]) >= v || scanned[k] <= -v);
                    assert(target_nums == scanned);
                    assert(!(-i64::MAX <= target_nums[k] <= i64::MAX));
                    assert(!nums_fit(target_nums));
                }
                return Err(CrawlError::InvalidData("number out of range"));
            }
            cur = Some(next128 as i64);
            proof {
                assert(next128 as i64 as int == prev as int * 10 + d as int);
            }
        } else {
            if let Some(v) = cur {
                let sv = if sign < 0 {
                    -v
                } else {
                    v
                };
                nums.push(sv);
                cur = None;
                sign = 1;
                proof {
                    let flushed = nums0.push(sign0 * (match cur0 {
                        Some(v2) => v2,
                        None => 0,
                    }));
                    assert(i64s_view(nums@) =~= flushed);
                    assert(target_nums == scanned_nums(slice@, i + 1, None::<int>, 1, flushed));
                }
            }
        }
        i = i + 1;
    }
    let ghost numsf = i64s_view(nums@);
    let ghost curf: Option<int> = match cur {
        Some(v) => Some(v as int),
        None => None,
    };
    let ghost signf = sign as int;
    if let Some(v) = cur {
        let sv = if sign < 0 {
            -v
        } else {
            v
        };
        nums.push(sv);
        proof {
            if signf == 1 {
                assert(signf * (v as int) == v as int);
            } else {
                assert(signf * (v as int) == -(v as int));
            }
            assert(i64s_view(nums@) =~= numsf.push(signf * (match curf {
                Some(v2) => v2,
                None => 0,
            })));
        }
    }
    proof {
        assert(i64s_view(nums@) == target_nums);
        assert(nums_fit(target_nums));
    }
    if nums.len() % 4 != 0 {
        return Err(CrawlError::InvalidData("d array length"));
    }
    let total = nums.len();
    let mut out: Vec<[i64; 4]> = Vec::new();
    let mut k: usize = 0;
    while k < total
        invariant
            k <= total,
            total == nums@.len(),
            total % 4 == 0,
            k % 4 == 0,
            out@.len() == k / 4,
            forall|q: int, j: int| 0 <= q < out@.len() && 0 <= j < 4
                ==> (#[trigger] out@[q]@[j]) == nums@[4 * q + j],
        decreases total - k,
    {
        let quad: [i64; 4] = [nums[k], nums[k + 1], nums[k + 2], nums[k + 3]];
        out.push(quad);
        k = k + 4;
    }
    proof {
        assert(data_view(out@) =~~= quads_view(target_nums));
    }
    Ok(out)
}

/// The value a `usize` store would keep on the build's pointer width.
pub open spec fn as_usize(x: int) -> int {
    (x as usize) as int
}

/// One dimension of the puzzle, decoded from quadruple `t`.
pub open spec fn decode_dim(t: Seq<int>) -> int {
    as_i64(mod_js(t[0], t[3]) + mod_js(t[1], t[3]) - mod_js(t[2], t[3]))
}

/// A color channel: the difference folded into `0 .. 256`.
pub open spec fn channel(x: int) -> int {
    trunc_rem(trunc_rem(x, 256) + 256, 256)
}

/// The lowercase hex digit of `v`.
pub open spec fn hex_char(v: int) -> char {
    if v < 10 {
        ((('0' as u8) + v) as u8) as char
    } else {
        ((('a' as u8) + (v - 10)) as u8) as char
    }
}

/// A `#rrggbb` color string.
pub open spec fn color_hex(r: int, g: int, b: int) -> Seq<char> {
    seq![
        '#',
        hex_char(r / 16),
        hex_char(r % 16),
        hex_char(g / 16),
        hex_char(g % 16),
        hex_char(b / 16),
        hex_char(b % 16),
    ]
}

/// The decoded palette: white first, then — for a color puzzle — one
/// entry per decoded color.
pub open spec fn palette_spec(kind: PuzzleKind, d: Seq<Seq<int>>, colors: int) -> Seq<Seq<char>> {
    match kind {
        PuzzleKind::BlackWhite => seq![color_hex(255, 255, 255), color_hex(0, 0, 0)],
        PuzzleKind::Color => seq![color_hex(255, 255, 255)] + Seq::new(
            colors as nat,
            |i: int|
                color_hex(
                    channel(as_i64(d[5 + i][0] - d[4][1])),
                    channel(as_i64(d[5 + i][1] - d[4][0])),
                    channel(as_i64(d[5 + i][2] - d[4][3])),
                ),
        ),
    }
}

/// The count of run entries that follow the grid header.
pub open spec fn ha_spec(t: Seq<int>) -> int {
    as_i64(
        mod_js(t[0], t[3]) * mod_js(t[0], t[3]) + mod_js(t[1], t[3]) * 2 + mod_js(t[2], t[3]),
    )
}

/// An all-background grid.
pub open spec fn empty_grid(rows: int, cols: int) -> Seq<Seq<int>> {
    Seq::new(rows as nat, |r: int| Seq::new(cols as nat, |c: int| 0int))
}

/// One run entry written into the grid: a horizontal stretch of one
/// color, clipped to the grid, or nothing when its numbers are out of
/// range.
pub open spec fn apply_entry(
    grid: Seq<Seq<int>>,
    e: Seq<int>,
    ia: Seq<int>,
    rows: int,
    cols: int,
) -> Seq<Seq<int>> {
    let row = as_i64(e[3] - ia[3] - 1);
    let start = as_i64(e[0] - ia[0] - 1);
    let len = as_i64(e[1] - ia[1]);
    let color = as_i64(e[2] - ia[2]);
    if row < 0 || start < 0 || len <= 0 {
        grid
    } else if as_usize(row) >= rows || as_usize(start) >= cols {
        grid
    } else {
        let row_u = as_usize(row);
        let start_u = as_usize(start);
        let end = if as_usize(start_u + len) < cols {
            as_usize(start_u + len)
        } else {
            cols
        };
        grid.update(
            row_u,
            Seq::new(cols as nat, |c: int| if start_u <= c < end {
                color
            } else {
                grid[row_u][c]
            }),
        )
    }
}

/// The grid after the run entries `from ..= to`, in order.
pub open spec fn apply_entries(
    d: Seq<Seq<int>>,
    ia: Seq<int>,
    grid: Seq<Seq<int>>,
    from: int,
    to: int,
    rows: int,
    cols: int,
) -> Seq<Seq<int>>
    decreases to + 1 - from,
{
    if from > to {
        grid
    } else {
        apply_entries(d, ia, apply_entry(grid, d[from], ia, rows, cols), from + 1, to, rows, cols)
    }
}

/// The first position at or after `i` that does not hold value `z`.
pub open spec fn run_end(line: Seq<int>, z: int, i: int) -> int
    decreases line.len() - i,
{
    if i >= line.len() {
        i
    } else if line[i] != z {
        i
    } else {
        run_end(line, z, i + 1)
    }
}

/// `run_end` never moves backwards and never passes the end.
pub proof fn lemma_run_end(line: Seq<int>, z: int, i: int)
    ensures
        run_end(line, z, i) >= i,
        i <= line.len() ==> run_end(line, z, i) <= line.len(),
    decreases line.len() - i,
{
    if i < line.len() && line[i] == z {
        lemma_run_end(line, z, i + 1);
    }
}

/// The maximal runs of non-background values from position `i` on.
pub open spec fn line_runs(line: Seq<int>, i: int) -> Seq<Group>
    decreases line.len() - i,
        via line_runs_decreases
{
    if i < 0 || i >= line.len() {
        Seq::empty()
    } else {
        let z = line[i];
        let j = run_end(line, z, i + 1);
        let rest = line_runs(line, j);
        if z > 0 {
            seq![Group { len: (j - i) as usize, color_id: z as usize }] + rest
        } else {
            rest
        }
    }
}

#[via_fn]
proof fn line_runs_decreases(line: Seq<int>, i: int) {
    if 0 <= i < line.len() {
        lemma_run_end(line, line[i], i + 1);
    }
}

/// One column of the grid, top to bottom.
pub open spec fn column_of(grid: Seq<Seq<int>>, c: int) -> Seq<int> {
    Seq::new(grid.len(), |r: int| grid[r][c])
}

/// The run lists of one orientation, line by line.
pub open spec fn runs_view(gs: Seq<Vec<Group>>) -> Seq<Seq<Group>> {
    gs.map_values(|row: Vec<Group>| row@)
}

/// The exact values of a grid of signed cells.
pub open spec fn cells_view(g: Seq<Vec<i64>>) -> Seq<Seq<int>> {
    g.map_values(|row: Vec<i64>| row@.map_values(|x: i64| x as int))
}

/// What `decode_puzzle_data` returns for the number quadruples `d`.
pub open spec fn decode_post(kind: PuzzleKind, d: Seq<Seq<int>>, r: Result<PuzzleData, CrawlError>) -> bool {
    if d.len() < 6 {
        &&& r matches Err(CrawlError::InvalidData(m))
        &&& (r matches Err(CrawlError::InvalidData(m)) ==> m@ == "d array too short"@)
    } else {
        let cols0 = decode_dim(d[1]);
        let rows0 = decode_dim(d[2]);
        let colors0 = decode_dim(d[3]);
        if rows0 <= 0 || cols0 <= 0 || colors0 <= 0 {
            &&& r matches Err(CrawlError::InvalidData(m))
            &&& (r matches Err(CrawlError::InvalidData(m)) ==> m@ == "decoded dimensions"@)
        } else {
            let rows = as_usize(rows0);
            let cols = as_usize(cols0);
            let colors = as_usize(colors0);
            if d.len() < 5 + colors {
                &&& r matches Err(CrawlError::InvalidData(m))
                &&& (r matches Err(CrawlError::InvalidData(m)) ==> m@ == "color data truncated"@)
            } else {
                let v_idx = as_usize(colors + 5);
                if d.len() <= v_idx + 1 {
                    &&& r matches Err(CrawlError::InvalidData(m))
                    &&& (r matches Err(CrawlError::InvalidData(m)) ==> m@ == "grid data truncated"@)
                } else {
                    let ha = ha_spec(d[v_idx]);
                    let max_idx = v_idx + 1 + as_usize(ha);
                    if d.len() <= max_idx {
                        &&& r matches Err(CrawlError::InvalidData(m))
                        &&& (r matches Err(CrawlError::InvalidData(m)) ==> m@ == "grid data out of bounds"@)
                    } else {
                        let grid = apply_entries(
                            d,
                            d[v_idx + 1],
                            empty_grid(rows as int, cols as int),
                            v_idx + 2,
                            max_idx as int,
                            rows as int,
                            cols as int,
                        );
                        &&& r matches Ok(out)
                        &&& (r matches Ok(out) ==> {
                            &&& out.color_panel@.map_values(|s: String| s@) == palette_spec(
                                kind,
                                d,
                                colors as int,
                            )
                            &&& runs_view(out.row_groups@) == Seq::new(
                                rows as nat,
                                |r2: int| line_runs(grid[r2], 0),
                            )
                            &&& runs_view(out.col_groups@) == Seq::new(
                                cols as nat,
                                |c2: int| line_runs(column_of(grid, c2), 0),
                            )
                        })
                    }
                }
            }
        }
    }
}

/// The quadruple's exact values.
pub open spec fn quad_view(t: [i64; 4]) -> Seq<int> {
    t@.map_values(|x: i64| x as int)
}

/// The folded remainder the site's script uses.
fn mod_js_exec(a: i64, b: i64) -> (r: i64)
    ensures
        r as int == mod_js(a as int, b as int),
{
    if b == 0 {
        return 0;
    }
    let abs_a: u64 = if a < 0 {
        (-(a as i128)) as u64
    } else {
        a as u64
    };
    let abs_b: u64 = if b < 0 {
        (-(b as i128)) as u64
    } else {
        b as u64
    };
    let m = abs_a % abs_b;
    if a < 0 && m != 0 {
        let sum: i128 = -(m as i128) + (b as i128);
        let out: i64 = #[verifier::truncate] (sum as i64);
        proof {
            assert(trunc_rem(a as int, b as int) == -(m as int));
        }
        out
    } else {
        proof {
            assert(trunc_rem(a as int, b as int) == if a < 0 {
                -(m as int)
            } else {
                m as int
            });
        }
        m as i64
    }
}

/// One decoded dimension.
fn dim_exec(t: [i64; 4]) -> (r: i64)
    ensures
        r as int == decode_dim(quad_view(t)),
{
    let m1 = mod_js_exec(t[0], t[3]);
    let m2 = mod_js_exec(t[1], t[3]);
    let m3 = mod_js_exec(t[2], t[3]);
    let sum: i128 = (m1 as i128) + (m2 as i128) - (m3 as i128);
    #[verifier::truncate] (sum as i64)
}

/// The decoded count of run entries.
fn ha_exec(t: [i64; 4]) -> (r: i64)
    ensures
        r as int == ha_spec(quad_view(t)),
{
    let m0 = mod_js_exec(t[0], t[3]);
    let m1 = mod_js_exec(t[1], t[3]);
    let m2 = mod_js_exec(t[2], t[3]);
    proof {
        assert(0 <= (m0 as int) * (m0 as int)
            <= 0x4000_0000_0000_0000_0000_0000_0000_0000int) by (nonlinear_arith)
            requires
                -0x8000_0000_0000_0000 <= m0 as int <= 0x7fff_ffff_ffff_ffff,
        ;
    }
    let sum: i128 = (m0 as i128) * (m0 as i128) + 2 * (m1 as i128) + (m2 as i128);
    #[verifier::truncate] (sum as i64)
}

/// One color channel of a palette entry.
fn channel_exec(x: i64) -> (r: i64)
    ensures
        r as int == channel(x as int),
        0 <= r < 256,
{
    let abs_x: u64 = if x < 0 {
        (-(x as i128)) as u64
    } else {
        x as u64
    };
    let m = abs_x % 256;
    let t: i64 = if x < 0 {
        -(m as i64)
    } else {
        m as i64
    };
    proof {
        assert(t as int == trunc_rem(x as int, 256));
    }
    let s = t + 256;
    let out = if s >= 256 {
        s - 256
    } else {
        s
    };
    proof {
        assert(out as int == trunc_rem(s as int, 256)) by {
            assert(0 < s < 512);
            if s >= 256 {
                assert((s as int) % 256 == s - 256) by (nonlinear_arith)
                    requires
                        256 <= s < 512,
                ;
            } else {
                assert((s as int) % 256 == s as int) by (nonlinear_arith)
                    requires
                        0 < s < 256,
                ;
            }
        }
    }
    out
}

/// Append the lowercase hex digit of `v`.
fn push_hex(buf: &mut String, v: u64)
    requires
        v < 16,
    ensures
        final(buf)@ == old(buf)@.push(hex_char(v as int)),
{
    let ch: u8 = if v < 10 {
        ('0' as u8) + (v as u8)
    } else {
        ('a' as u8) + ((v - 10) as u8)
    };
    buf.push(ch as char);
}

/// A stretch of equal values, then a boundary: that is where `run_end`
/// stops.
proof fn lemma_run_end_eq(line: Seq<int>, z: int, i: int, j: int)
    requires
        0 <= i <= j <= line.len(),
        forall|k: int| i <= k < j ==> #[trigger] line[k] == z,
        j == line.len() || line[j] != z,
    ensures
        run_end(line, z, i) == j,
    decreases j - i,
{
    if i < j {
        lemma_run_end_eq(line, z, i + 1, j);
    }
}

/// Splitting the run entries: processing one more entry applies it to the
/// grid the earlier entries produced.
proof fn lemma_apply_entries_snoc(
    d: Seq<Seq<int>>,
    ia: Seq<int>,
    g: Seq<Seq<int>>,
    from: int,
    to: int,
    rows: int,
    cols: int,
)
    requires
        from <= to,
    ensures
        apply_entries(d, ia, g, from, to, rows, cols) == apply_entry(
            apply_entries(d, ia, g, from, to - 1, rows, cols),
            d[to],
            ia,
            rows,
            cols,
        ),
    decreases to - from,
{
    if from < to {
        lemma_apply_entries_snoc(d, ia, apply_entry(g, d[from], ia, rows, cols), from + 1, to, rows, cols);
    } else {
        assert(apply_entries(d, ia, apply_entry(g, d[from], ia, rows, cols), from + 1, to, rows, cols)
            == apply_entry(g, d[from], ia, rows, cols));
        assert(apply_entries(d, ia, g, from, to - 1, rows, cols) == g);
    }
}

/// A grid of `rows` lines of `cols` background cells.
fn zero_grid(rows: usize, cols: usize) -> (g: Vec<Vec<i64>>)
    ensures
        g@.len() == rows,
        forall|r: int| 0 <= r < rows ==> (#[trigger] g@[r])@.len() == cols,
        forall|r: int, c: int| 0 <= r < rows && 0 <= c < cols ==> (#[trigger] g@[r]@[c]) == 0i64,
{
    let mut g: Vec<Vec<i64>> = Vec::new();
    let mut r: usize = 0;
    while r < rows
        invariant
            r <= rows,
            g@.len() == r,
            forall|q: int| 0 <= q < r ==> (#[trigger] g@[q])@.len() == cols,
            forall|q: int, c: int| 0 <= q < r && 0 <= c < cols ==> (#[trigger] g@[q]@[c]) == 0i64,
        decreases rows - r,
    {
        let mut row: Vec<i64> = Vec::new();
        let mut c: usize = 0;
        while c < cols
            invariant
                c <= cols,
                row@.len() == c,
                forall|q: int| 0 <= q < c ==> (#[trigger] row@[q]) == 0i64,
            decreases cols - c,
        {
            row.push(0);
            c = c + 1;
        }
        g.push(row);
        r = r + 1;
    }
    g
}

/// Decode the number array of a page into a puzzle: its dimensions, its
/// palette, and — by rebuilding the solution grid the site embeds — the
/// run lists of every row and column.
pub fn decode_puzzle_data(kind: PuzzleKind, data: &Vec<[i64; 4]>) -> (r: Result<PuzzleData, CrawlError>)
    ensures
        decode_post(kind, data_view(data@), r),
{
    let ghost d = data_view(data@);
    let dlen = data.len();
    proof {
        assert(d.len() == data@.len());
        assert(forall|q: int, j: int| 0 <= q < d.len() && 0 <= j < 4
            ==> (#[trigger] d[q][j]) == data@[q]@[j] as int);
        assert(forall|q: int| 0 <= q < d.len() ==> (#[trigger] d[q]).len() == 4);
    }
    if data.len() < 6 {
        return Err(CrawlError::InvalidData("d array too short"));
    }
    let cols0 = dim_exec(data[1]);
    let rows0 = dim_exec(data[2]);
    let colors0 = dim_exec(data[3]);
    proof {
        assert(quad_view(data@[1]) =~= d[1]);
        assert(quad_view(data@[2]) =~= d[2]);
        assert(quad_view(data@[3]) =~= d[3]);
    }
    if rows0 <= 0 || cols0 <= 0 || colors0 <= 0 {
        return Err(CrawlError::InvalidData("decoded dimensions"));
    }
    let rows: usize = #[verifier::truncate] (rows0 as usize);
    let cols: usize = #[verifier::truncate] (cols0 as usize);
    let colors: usize = #[verifier::truncate] (colors0 as usize);
    let five_colors = match 5usize.checked_add(colors) {
        Some(fc) => fc,
        None => {
            return Err(CrawlError::InvalidData("color data truncated"));
        },
    };
    if data.len() < five_colors {
        return Err(CrawlError::InvalidData("color data truncated"));
    }
    let base = data[4];
    let mut color_panel: Vec<String> = Vec::new();
    match kind {
        PuzzleKind::BlackWhite => {
            color_panel.push("#ffffff".to_owned());
            color_panel.push("#000000".to_owned());
            proof {
                reveal_strlit("#ffffff");
                reveal_strlit("#000000");
                assert(color_panel@[0]@ =~= color_hex(255, 255, 255));
                assert(color_panel@[1]@ =~= color_hex(0, 0, 0));
                assert(color_panel@.map_values(|s2: String| s2@) =~~= palette_spec(
                    kind,
                    d,
                    colors as int,
                ));
            }
        },
        PuzzleKind::Color => {
            color_panel.push("#ffffff".to_owned());
            proof {
                reveal_strlit("#ffffff");
                assert(color_panel@[0]@ =~= color_hex(255, 255, 255));
            }
            let mut i: usize = 0;
            while i < colors
                invariant
                    i <= colors,
                    5 + colors <= data@.len(),
                    dlen == data@.len(),
                    d == data_view(data@),
                    d.len() == data@.len(),
                    base == data@[4],
                    color_panel@.len() == i + 1,
                    color_panel@[0]@ == color_hex(255, 255, 255),
                    forall|q: int| 1 <= q < i + 1
                        ==> (#[trigger] color_panel@[q])@ == color_hex(
                            channel(as_i64(d[5 + (q - 1)][0] - d[4][1])),
                            channel(as_i64(d[5 + (q - 1)][1] - d[4][0])),
                            channel(as_i64(d[5 + (q - 1)][2] - d[4][3])),
                        ),
                decreases colors - i,
            {
                let entry = data[5 + i];
                let xr: i64 = #[verifier::truncate] (((entry[0] as i128) - (base[1] as i128)) as i64);
                let xg: i64 = #[verifier::truncate] (((entry[1] as i128) - (base[0] as i128)) as i64);
                let xb: i64 = #[verifier::truncate] (((entry[2] as i128) - (base[3] as i128)) as i64);
                let rch = channel_exec(xr);
                let gch = channel_exec(xg);
                let bch = channel_exec(xb);
                let r8 = rch as u64;
                let g8 = gch as u64;
                let b8 = bch as u64;
                let mut buf = String::new();
                buf.push('#');
                push_hex(&mut buf, r8 / 16);
                push_hex(&mut buf, r8 % 16);
                push_hex(&mut buf, g8 / 16);
                push_hex(&mut buf, g8 % 16);
                push_hex(&mut buf, b8 / 16);
                push_hex(&mut buf, b8 % 16);
                proof {
                    assert(buf@ =~= color_hex(rch as int, gch as int, bch as int));
                    assert(entry@[0] as int == d[5 + i][0]);
                    assert(base@[1] as int == d[4][1]);
                }
                color_panel.push(buf);
                i = i + 1;
            }
            proof {
                assert(color_panel@.map_values(|s2: String| s2@) =~~= palette_spec(
                    kind,
                    d,
                    colors as int,
                ));
            }
        },
    }
    let v_idx = colors + 5;
    let v_next = match v_idx.checked_add(1) {
        Some(v) => v,
        None => {
            return Err(CrawlError::InvalidData("grid data truncated"));
        },
    };
    if data.len() <= v_next {
        return Err(CrawlError::InvalidData("grid data truncated"));
    }
    let ha = ha_exec(data[v_idx]);
    proof {
        assert(quad_view(data@[v_idx as int]) =~= d[v_idx as int]);
    }
    let ia = data[v_next];
    let ha_u: usize = #[verifier::truncate] (ha as usize);
    let max_idx = match v_next.checked_add(ha_u) {
        Some(mi) => mi,
        None => {
            return Err(CrawlError::InvalidData("grid data out of bounds"));
        },
    };
    if data.len() <= max_idx {
        return Err(CrawlError::InvalidData("grid data out of bounds"));
    }
    let mut grid = zero_grid(rows, cols);
    let ghost iav = quad_view(ia);
    proof {
        assert(iav =~= d[v_next as int]);
        assert(cells_view(grid@) =~~= empty_grid(rows as int, cols as int));
    }
    let mut idx = v_idx + 2;
    while idx <= max_idx
        invariant
            v_idx + 2 <= idx <= max_idx + 1,
            dlen == data@.len(),
            max_idx < dlen,
            max_idx < data@.len(),
            d == data_view(data@),
            d.len() == data@.len(),
            iav == d[v_idx + 1],
            v_idx + 1 < data@.len(),
            ia == data@[v_idx + 1],
            grid@.len() == rows,
            forall|r2: int| 0 <= r2 < rows ==> (#[trigger] grid@[r2])@.len() == cols,
            cells_view(grid@) == apply_entries(
                d,
                iav,
                empty_grid(rows as int, cols as int),
                v_idx + 2,
                idx - 1,
                rows as int,
                cols as int,
            ),
        decreases max_idx - idx + 1,
    {
        let ghost gs0 = grid@;
        let ghost grid0 = cells_view(grid@);
        let e = data[idx];
        proof {
            assert(quad_view(e) =~= d[idx as int]);
        }
        let row: i64 = #[verifier::truncate] (((e[3] as i128) - (ia[3] as i128) - 1) as i64);
        let start: i64 = #[verifier::truncate] (((e[0] as i128) - (ia[0] as i128) - 1) as i64);
        let len: i64 = #[verifier::truncate] (((e[1] as i128) - (ia[1] as i128)) as i64);
        let color: i64 = #[verifier::truncate] (((e[2] as i128) - (ia[2] as i128)) as i64);
        proof {
            assert(row as int == as_i64(d[idx as int][3] - iav[3] - 1));
            assert(start as int == as_i64(d[idx as int][0] - iav[0] - 1));
            assert(len as int == as_i64(d[idx as int][1] - iav[1]));
            assert(color as int == as_i64(d[idx as int][2] - iav[2]));
            lemma_apply_entries_snoc(d, iav, empty_grid(rows as int, cols as int), v_idx + 2,
                idx as int, rows as int, cols as int);
        }
        if row < 0 || start < 0 || len <= 0 {
            proof {
                assert(apply_entry(grid0, d[idx as int], iav, rows as int, cols as int) == grid0);
                assert(apply_entries(d, iav, empty_grid(rows as int, cols as int), v_idx + 2,
                    idx as int, rows as int, cols as int) == cells_view(grid@));
            }
        } else {
            let row_u: usize = #[verifier::truncate] (row as usize);
            let start_u: usize = #[verifier::truncate] (start as usize);
            if row_u >= rows || start_u >= cols {
                proof {
                    assert(apply_entry(grid0, d[idx as int], iav, rows as int, cols as int)
                        == grid0);
                    assert(apply_entries(d, iav, empty_grid(rows as int, cols as int), v_idx + 2,
                        idx as int, rows as int, cols as int) == cells_view(grid@));
                }
            } else {
                let sl: i128 = (start_u as i128) + (len as i128);
                let sl_u: usize = #[verifier::truncate] (sl as usize);
                let end = if sl_u < cols {
                    sl_u
                } else {
                    cols
                };
                let mut c = start_u;
                while c < end
                    invariant
                        start_u <= c,
                        c <= end || c == start_u,
                        end <= cols,
                        row_u < rows,
                        grid@.len() == rows,
                        gs0.len() == rows,
                        forall|r3: int| 0 <= r3 < rows ==> (#[trigger] gs0[r3])@.len() == cols,
                        forall|r3: int| 0 <= r3 < rows ==> (#[trigger] grid@[r3])@.len() == cols,
                        forall|r3: int| 0 <= r3 < rows && r3 != row_u
                            ==> (#[trigger] grid@[r3]) == gs0[r3],
                        forall|c2: int| 0 <= c2 < cols
                            ==> (#[trigger] grid@[row_u as int]@[c2]) == (if start_u <= c2 < c {
                                color
                            } else {
                                gs0[row_u as int]@[c2]
                            }),
                    decreases end - c,
                {
                    grid[row_u][c] = color;
                    c = c + 1;
                }
                proof {
                    assert(grid0 == cells_view(gs0));
                    assert(cells_view(grid@) =~~= apply_entry(grid0, d[idx as int], iav,
                        rows as int, cols as int));
                    assert(apply_entries(d, iav, empty_grid(rows as int, cols as int), v_idx + 2,
                        idx as int, rows as int, cols as int) == cells_view(grid@));
                }
            }
        }
        idx = idx + 1;
    }
    let ghost gridv = cells_view(grid@);
    let mut row_groups: Vec<Vec<Group>> = Vec::new();
    let mut r2: usize = 0;
    while r2 < rows
        invariant
            r2 <= rows,
            grid@.len() == rows,
            forall|q: int| 0 <= q < rows ==> (#[trigger] grid@[q])@.len() == cols,
            gridv == cells_view(grid@),
            row_groups@.len() == r2,
            forall|q: int| 0 <= q < r2 ==> (#[trigger] row_groups@[q])@ == line_runs(gridv[q], 0),
        decreases rows - r2,
    {
        let ghost line = gridv[r2 as int];
        let mut groups: Vec<Group> = Vec::new();
        let mut col: usize = 0;
        while col < cols
            invariant
                col <= cols,
                r2 < rows,
                grid@.len() == rows,
                forall|q: int| 0 <= q < rows ==> (#[trigger] grid@[q])@.len() == cols,
                gridv == cells_view(grid@),
                line == gridv[r2 as int],
                line.len() == cols,
                line_runs(line, 0) == groups@ + line_runs(line, col as int),
            decreases cols - col,
        {
            let ghost groups0 = groups@;
            let z = grid[r2][col];
            let start = col;
            while col < cols && grid[r2][col] == z
                invariant
                    start <= col <= cols,
                    r2 < rows,
                    grid@.len() == rows,
                    forall|q: int| 0 <= q < rows ==> (#[trigger] grid@[q])@.len() == cols,
                    gridv == cells_view(grid@),
                    line == gridv[r2 as int],
                    line.len() == cols,
                    forall|k: int| start <= k < col ==> #[trigger] line[k] == z as int,
                decreases cols - col,
            {
                col = col + 1;
            }
            proof {
                assert(line[start as int] == z as int);
                assert(start < col);
                lemma_run_end_eq(line, z as int, start + 1, col as int);
            }
            let len_run = col - start;
            if z > 0 && len_run > 0 {
                groups.push(
                    Group { len: len_run, color_id: #[verifier::truncate] (z as usize) },
                );
            }
            proof {
                assert(line_runs(line, start as int) == (if z as int > 0 {
                    seq![
                        Group {
                            len: (col - start) as usize,
                            color_id: (z as int) as usize,
                        },
                    ]
                } else {
                    Seq::<Group>::empty()
                }) + line_runs(line, col as int));
                assert(groups@ + line_runs(line, col as int) =~= groups0 + line_runs(
                    line,
                    start as int,
                ));
            }
        }
        proof {
            assert(groups@ =~= groups@ + line_runs(line, cols as int));
        }
        row_groups.push(groups);
        r2 = r2 + 1;
    }
    let mut col_groups: Vec<Vec<Group>> = Vec::new();
    let mut c2: usize = 0;
    while c2 < cols
        invariant
            c2 <= cols,
            grid@.len() == rows,
            forall|q: int| 0 <= q < rows ==> (#[trigger] grid@[q])@.len() == cols,
            gridv == cells_view(grid@),
            col_groups@.len() == c2,
            forall|q: int| 0 <= q < c2
                ==> (#[trigger] col_groups@[q])@ == line_runs(column_of(gridv, q), 0),
        decreases cols - c2,
    {
        let ghost line = column_of(gridv, c2 as int);
        let mut groups: Vec<Group> = Vec::new();
        let mut row = 0usize;
        while row < rows
            invariant
                row <= rows,
                c2 < cols,
                grid@.len() == rows,
                forall|q: int| 0 <= q < rows ==> (#[trigger] grid@[q])@.len() == cols,
                gridv == cells_view(grid@),
                line == column_of(gridv, c2 as int),
                line.len() == rows,
                line_runs(line, 0) == groups@ + line_runs(line, row as int),
            decreases rows - row,
        {
            let ghost groups0 = groups@;
            let z = grid[row][c2];
            let start = row;
            while row < rows && grid[row][c2] == z
                invariant
                    start <= row <= rows,
                    c2 < cols,
                    grid@.len() == rows,
                    forall|q: int| 0 <= q < rows ==> (#[trigger] grid@[q])@.len() == cols,
                    gridv == cells_view(grid@),
                    line == column_of(gridv, c2 as int),
                    line.len() == rows,
                    forall|k: int| start <= k < row ==> #[trigger] line[k] == z as int,
                decreases rows - row,
            {
                row = row + 1;
            }
            proof {
                lemma_run_end_eq(line, z as int, start + 1, row as int);
                assert(line[start as int] == z as int);
            }
            let len_run = row - start;
            if z > 0 && len_run > 0 {
                groups.push(
                    Group { len: len_run, color_id: #[verifier::truncate] (z as usize) },
                );
            }
            proof {
                assert(line_runs(line, start as int) == (if z as int > 0 {
                    seq![
                        Group {
                            len: (row - start) as usize,
                            color_id: (z as int) as usize,
                        },
                    ]
                } else {
                    Seq::<Group>::empty()
                }) + line_runs(line, row as int));
                assert(groups@ + line_runs(line, row as int) =~= groups0 + line_runs(
                    line,
                    start as int,
                ));
            }
        }
        proof {
            assert(groups@ =~= groups@ + line_runs(line, rows as int));
        }
        col_groups.push(groups);
        c2 = c2 + 1;
    }
    proof {
        assert(runs_view(row_groups@) =~= Seq::new(
            rows as nat,
            |q: int| line_runs(gridv[q], 0),
        ));
        assert(runs_view(col_groups@) =~= Seq::new(
            cols as nat,
            |q: int| line_runs(column_of(gridv, q), 0),
        ));
    }
    Ok(PuzzleData { color_panel, row_groups, col_groups })
}

/// What `parse_puzzle` returns for a page with byte text `h`: the
/// extraction errors first, then whatever decoding the extracted numbers
/// gives.
pub open spec fn parse_post(kind: PuzzleKind, h: Seq<u8>, r: Result<PuzzleData, CrawlError>) -> bool {
    if !has_subseq(h, d_marker()) {
        &&& r matches Err(CrawlError::MissingData(m))
        &&& (r matches Err(CrawlError::MissingData(m)) ==> m@ == "var d array"@)
    } else if !has_subseq(
        h.subrange(first_index(h, d_marker()) + d_marker().len(), h.len() as int),
        end_marker(),
    ) {
        &&& r matches Err(CrawlError::MissingData(m))
        &&& (r matches Err(CrawlError::MissingData(m)) ==> m@ == "d array end"@)
    } else {
        let nums = array_nums(d_slice(h));
        if !nums_fit(nums) {
            &&& r matches Err(CrawlError::InvalidData(m))
            &&& (r matches Err(CrawlError::InvalidData(m)) ==> m@ == "number out of range"@)
        } else if nums.len() % 4 != 0 {
            &&& r matches Err(CrawlError::InvalidData(m))
            &&& (r matches Err(CrawlError::InvalidData(m)) ==> m@ == "d array length"@)
        } else {
            decode_post(kind, quads_view(nums), r)
        }
    }
}

/// Parse a puzzle from a page's text.
pub fn parse_puzzle(kind: PuzzleKind, html: &str) -> (r: Result<PuzzleData, CrawlError>)
    ensures
        parse_post(kind, html.spec_bytes(), r),
{
    let data = match extract_d_array(html) {
        Ok(data) => data,
        Err(e) => {
            return Err(e);
        },
    };
    decode_puzzle_data(kind, &data)
}

} // verus!
