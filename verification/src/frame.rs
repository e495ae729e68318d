//! The framing of the bytes of a block: where each item of the bytes ends.
//! An item whose head declares more bytes or more items than the bytes that
//! remain, or that nests deeper than a bound, is not framed; nor are bytes
//! beyond the size of a block. Bytes that are
//! not framed are kept from the codec, which takes a declared length at its
//! word.

use vstd::prelude::*;

verus! {

/// How deep lists and maps may nest in the bytes of a block.
pub const MAX_NESTING: usize = 128;

/// How many bytes a block may hold: as many as the codec writes at most.
pub const MAX_BLOCK_LEN: usize = 1_048_576;

/// The head of an item: the number that it declares, and where what
/// follows the head starts.
pub struct Head {
    pub value: int,
    pub next: int,
}

/// The number that `width` bytes from `at` spell, the high byte first.
pub open spec fn number_at(data: Seq<u8>, at: int, width: int) -> int
    decreases width,
{
    if width <= 0 {
        0
    } else {
        number_at(data, at, width - 1) * 256 + data[at + width - 1] as int
    }
}

/// How many bytes after the first spell the number of a head whose first
/// byte has the low bits `low`; -1 where the low bits declare no number.
pub open spec fn width_of(low: int) -> int {
    if low < 24 {
        0
    } else if low == 24 {
        1
    } else if low == 25 {
        2
    } else if low == 26 {
        4
    } else if low == 27 {
        8
    } else {
        -1
    }
}

/// The head that starts at `at`, where one stands there whole.
pub open spec fn head_at(data: Seq<u8>, at: int) -> Option<Head> {
    if at < 0 || at >= data.len() {
        None
    } else {
        let low = data[at] as int % 32;
        let width = width_of(low);
        if width < 0 || at + 1 + width > data.len() {
            None
        } else {
            Some(
                Head {
                    value: if width == 0 {
                        low
                    } else {
                        number_at(data, at + 1, width)
                    },
                    next: at + 1 + width,
                },
            )
        }
    }
}

/// Where the item at `at` ends whose head declares as many bytes as follow
/// it: no end where the bytes that remain are fewer.
pub open spec fn run_end(data: Seq<u8>, at: int) -> Option<int> {
    match head_at(data, at) {
        Some(h) => if h.value <= data.len() - h.next {
            Some(h.next + h.value)
        } else {
            None
        },
        None => None,
    }
}

/// Where the text string at `at` ends, where one stands there.
pub open spec fn string_end(data: Seq<u8>, at: int) -> Option<int> {
    if at < 0 || at >= data.len() || data[at] as int / 32 != 3 {
        None
    } else {
        run_end(data, at)
    }
}

/// Where the link at `at` ends: the tag for links, then a byte string of
/// one byte to 255 with its length in one byte.
pub open spec fn link_end(data: Seq<u8>, at: int) -> Option<int> {
    if at < 0 || at + 4 > data.len() || data[at] != 0xd8 || data[at + 1] != 42 || data[at + 2] != 0x58 || data[at + 3] == 0
        || at + 4 + data[at + 3] as int > data.len() {
        None
    } else {
        Some(at + 4 + data[at + 3] as int)
    }
}

/// Where the simple value or the float at `at` ends.
pub open spec fn simple_end(data: Seq<u8>, at: int) -> Option<int> {
    if at < 0 || at >= data.len() {
        None
    } else if data[at] == 0xf4 || data[at] == 0xf5 || data[at] == 0xf6 || data[at] == 0xf7 {
        Some(at + 1)
    } else if data[at] == 0xfa && at + 5 <= data.len() {
        Some(at + 5)
    } else if data[at] == 0xfb && at + 9 <= data.len() {
        Some(at + 9)
    } else {
        None
    }
}

/// Where the value of an element starts: after its name, a text string,
/// where the elements are the pairs of a map; else where the element
/// starts.
pub open spec fn value_start(data: Seq<u8>, at: int, pairs: bool) -> Option<int> {
    if pairs {
        string_end(data, at)
    } else {
        Some(at)
    }
}

/// Where the item at `at` ends, where it is framed: each head stands whole,
/// declares no more bytes or elements than bytes remain, and lists and maps
/// nest no deeper than `depth`.
pub open spec fn item_end(data: Seq<u8>, at: int, depth: nat) -> Option<int>
    decreases depth, 0nat,
{
    if at < 0 || at >= data.len() {
        None
    } else {
        let major = data[at] as int / 32;
        let low = data[at] as int % 32;
        if major == 0 || major == 1 {
            match head_at(data, at) {
                Some(h) => Some(h.next),
                None => None,
            }
        } else if major == 2 || major == 3 {
            run_end(data, at)
        } else if major == 4 || major == 5 {
            if depth == 0 {
                None
            } else if low == 31 {
                items_to_break(data, at + 1, (depth - 1) as nat, major == 5)
            } else {
                match head_at(data, at) {
                    Some(h) => if h.value <= data.len() - h.next {
                        items_end(data, h.next, h.value as nat, (depth - 1) as nat, major == 5)
                    } else {
                        None
                    },
                    None => None,
                }
            }
        } else if major == 6 {
            link_end(data, at)
        } else {
            simple_end(data, at)
        }
    }
}

/// Where `count` elements from `at` end, where each is framed.
pub open spec fn items_end(data: Seq<u8>, at: int, count: nat, depth: nat, pairs: bool) -> Option<int>
    decreases depth, count + 1,
{
    if count == 0 {
        Some(at)
    } else {
        match value_start(data, at, pairs) {
            None => None,
            Some(start) => match item_end(data, start, depth) {
                None => None,
                Some(end) => items_end(data, end, (count - 1) as nat, depth, pairs),
            },
        }
    }
}

/// Where the elements from `at` end that go on to the byte that breaks
/// them off, where each is framed.
pub open spec fn items_to_break(data: Seq<u8>, at: int, depth: nat, pairs: bool) -> Option<int>
    decreases depth, (data.len() - at + 1) as nat,
{
    if at < 0 || at >= data.len() {
        None
    } else if data[at] == 0xff {
        Some(at + 1)
    } else {
        match value_start(data, at, pairs) {
            None => None,
            Some(start) => match item_end(data, start, depth) {
                None => None,
                Some(end) => if end <= at || end > data.len() {
                    None
                } else {
                    items_to_break(data, end, depth, pairs)
                },
            },
        }
    }
}

/// Whether bytes are framed: they are no more than a block may hold, and
/// their first item is framed.
pub open spec fn framed(data: Seq<u8>) -> bool {
    data.len() <= MAX_BLOCK_LEN && item_end(data, 0, MAX_NESTING as nat) is Some
}

/// A head as it is read.
pub struct HeadRead {
    pub value: u64,
    pub next: usize,
}

/// Whether what is read is what the bytes hold.
pub open spec fn head_read(r: Option<HeadRead>, h: Option<Head>) -> bool {
    match h {
        Some(h) => r is Some && r->0.value == h.value && r->0.next == h.next,
        None => r is None,
    }
}

/// Whether a place that is found is the place that the bytes give, within
/// the bytes.
pub open spec fn end_found(r: Option<usize>, end: Option<int>, len: int) -> bool {
    match end {
        Some(e) => r is Some && r->0 == e && e <= len,
        None => r is None,
    }
}

/// Reads the head at `at`.
pub fn read_head(data: &Vec<u8>, at: usize) -> (r: Option<HeadRead>)
    ensures
        head_read(r, head_at(data@, at as int)),
{
    let n = data.len();
    if at >= n {
        return None;
    }
    let low = data[at] % 32;
    let rest = n - at - 1;
    proof {
        reveal_with_fuel(number_at, 9);
    }
    if low < 24 {
        Some(HeadRead { value: low as u64, next: at + 1 })
    } else if low == 24 {
        if rest < 1 {
            return None;
        }
        Some(HeadRead { value: data[at + 1] as u64, next: at + 2 })
    } else if low == 25 {
        if rest < 2 {
            return None;
        }
        let value = (data[at + 1] as u64) * 256 + data[at + 2] as u64;
        Some(HeadRead { value, next: at + 3 })
    } else if low == 26 {
        if rest < 4 {
            return None;
        }
        let value = (((data[at + 1] as u64) * 256 + data[at + 2] as u64) * 256 + data[at + 3] as u64) * 256 + data[at + 4] as u64;
        Some(HeadRead { value, next: at + 5 })
    } else if low == 27 {
        if rest < 8 {
            return None;
        }
        let high = (((data[at + 1] as u64) * 256 + data[at + 2] as u64) * 256 + data[at + 3] as u64) * 256 + data[at + 4] as u64;
        let value = (((high * 256 + data[at + 5] as u64) * 256 + data[at + 6] as u64) * 256 + data[at + 7] as u64) * 256 + data[at + 8] as u64;
        Some(HeadRead { value, next: at + 9 })
    } else {
        None
    }
}

/// Where the item at `at` ends whose head declares as many bytes as follow
/// it.
pub fn find_run_end(data: &Vec<u8>, at: usize) -> (r: Option<usize>)
    ensures
        end_found(r, run_end(data@, at as int), data@.len() as int),
{
    match read_head(data, at) {
        None => None,
        Some(h) => {
            let rest = data.len() - h.next;
            if h.value <= rest as u64 {
                Some(h.next + h.value as usize)
            } else {
                None
            }
        },
    }
}

/// Where the value of an element starts.
fn find_value_start(data: &Vec<u8>, at: usize, pairs: bool) -> (r: Option<usize>)
    requires
        at <= data@.len(),
    ensures
        end_found(r, value_start(data@, at as int, pairs), data@.len() as int),
{
    if !pairs {
        return Some(at);
    }
    if at >= data.len() || data[at] / 32 != 3 {
        return None;
    }
    find_run_end(data, at)
}

/// Where the link at `at` ends.
fn find_link_end(data: &Vec<u8>, at: usize) -> (r: Option<usize>)
    ensures
        end_found(r, link_end(data@, at as int), data@.len() as int),
{
    let n = data.len();
    if n < 4 || at > n - 4 {
        return None;
    }
    if data[at] != 0xd8 || data[at + 1] != 42 || data[at + 2] != 0x58 || data[at + 3] == 0 {
        return None;
    }
    let len = data[at + 3] as usize;
    if len > n - at - 4 {
        return None;
    }
    Some(at + 4 + len)
}

/// Where the simple value or the float at `at` ends.
fn find_simple_end(data: &Vec<u8>, at: usize) -> (r: Option<usize>)
    ensures
        end_found(r, simple_end(data@, at as int), data@.len() as int),
{
    let n = data.len();
    if at >= n {
        return None;
    }
    let b = data[at];
    if b == 0xf4 || b == 0xf5 || b == 0xf6 || b == 0xf7 {
        Some(at + 1)
    } else if b == 0xfa && n - at >= 5 {
        Some(at + 5)
    } else if b == 0xfb && n - at >= 9 {
        Some(at + 9)
    } else {
        None
    }
}

/// Where the item at `at` ends, where it is framed and nests no deeper
/// than `depth`.
pub fn find_item_end(data: &Vec<u8>, at: usize, depth: usize) -> (r: Option<usize>)
    ensures
        end_found(r, item_end(data@, at as int, depth as nat), data@.len() as int),
    decreases depth,
{
    let n = data.len();
    if at >= n {
        return None;
    }
    let major = data[at] / 32;
    let low = data[at] % 32;
    if major == 0 || major == 1 {
        return match read_head(data, at) {
            Some(h) => Some(h.next),
            None => None,
        };
    }
    if major == 2 || major == 3 {
        return find_run_end(data, at);
    }
    if major == 6 {
        return find_link_end(data, at);
    }
    if major == 7 {
        return find_simple_end(data, at);
    }
    if depth == 0 {
        return None;
    }
    let pairs = major == 5;
    let below = depth - 1;
    let ghost target = item_end(data@, at as int, depth as nat);
    if low == 31 {
        let mut cur: usize = at + 1;
        loop
            invariant
                cur <= n,
                n == data@.len(),
                below == depth - 1,
                target == items_to_break(data@, cur as int, below as nat, pairs),
                target == item_end(data@, at as int, depth as nat),
            decreases n - cur,
        {
            if cur >= n {
                return None;
            }
            if data[cur] == 0xff {
                return Some(cur + 1);
            }
            let value_at = match find_value_start(data, cur, pairs) {
                Some(v) => v,
                None => {
                    return None;
                },
            };
            let end = match find_item_end(data, value_at, below) {
                Some(e) => e,
                None => {
                    return None;
                },
            };
            if end <= cur {
                return None;
            }
            cur = end;
        }
    }
    let h = match read_head(data, at) {
        Some(h) => h,
        None => {
            return None;
        },
    };
    if h.value > (n - h.next) as u64 {
        return None;
    }
    let count = h.value as usize;
    let mut cur: usize = h.next;
    let mut i: usize = 0;
    while i < count
        invariant
            i <= count,
            cur <= n,
            n == data@.len(),
            below == depth - 1,
            target == items_end(data@, cur as int, (count - i) as nat, below as nat, pairs),
            target == item_end(data@, at as int, depth as nat),
        decreases count - i,
    {
        let value_at = match find_value_start(data, cur, pairs) {
            Some(v) => v,
            None => {
                return None;
            },
        };
        let end = match find_item_end(data, value_at, below) {
            Some(e) => e,
            None => {
                return None;
            },
        };
        cur = end;
        i = i + 1;
    }
    Some(cur)
}

/// Whether bytes are framed.
pub fn is_framed(data: &Vec<u8>) -> (r: bool)
    ensures
        r == framed(data@),
{
    data.len() <= MAX_BLOCK_LEN && find_item_end(data, 0, MAX_NESTING).is_some()
}

} // verus!
