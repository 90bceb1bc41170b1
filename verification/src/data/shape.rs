//! The shape a Parquet file must have for its reader to come to an end with it.
//!
//! Most malformed files the reader refuses by itself, but some it takes for
//! granted and stops the program on: a schema that nests without bound, a map of
//! nothing but a column that repeats, a root that is a list; a page coded against
//! a dictionary that is not there, levels or values that are fewer than a page
//! says, a number that never ends. So the footer's schema, the pages' headers and
//! the pages themselves are looked at here first, byte by byte. What is written in
//! a form that no writer gives it is taken for one of these.
use vstd::prelude::*;
use vstd::slice::slice_subrange;

verus! {

/// The byte at a place, or a negative number where there is none.
pub open spec fn at(s: Seq<u8>, i: int) -> int {
    if 0 <= i < s.len() {
        s[i] as int
    } else {
        -1
    }
}

fn byte_at(s: &[u8], i: usize) -> (r: i16)
    ensures
        r == at(s@, i as int),
        r >= 0 ==> i < s@.len(),
        s@.len() <= usize::MAX,
        r <= 255,
{
    if i < s.len() {
        s[i] as i16
    } else {
        -1
    }
}

/// An integer of as many bytes as it needs, seven bits in each, low bits first,
/// and where it ends; if it ends within a number of bytes.
pub open spec fn varint(s: Seq<u8>, i: int, most: nat) -> Option<(int, int)>
    decreases most,
{
    if most == 0 || at(s, i) < 0 {
        None
    } else if at(s, i) < 128 {
        Some((at(s, i), i + 1))
    } else {
        match varint(s, i + 1, (most - 1) as nat) {
            Some((rest, end)) => Some((at(s, i) - 128 + 128 * rest, end)),
            None => None,
        }
    }
}

/// What a number of bytes can spell.
spec fn room(most: nat) -> int
    decreases most,
{
    if most == 0 {
        1
    } else {
        128 * room((most - 1) as nat)
    }
}

fn varint_at(s: &[u8], i: usize, most: u8) -> (r: Option<(u64, usize)>)
    requires
        most <= 5,
    ensures
        match r {
            Some((v, end)) => {
                &&& varint(s@, i as int, most as nat) == Some((v as int, end as int))
                &&& v < room(most as nat)
                &&& i < end <= s@.len()
            },
            None => varint(s@, i as int, most as nat) is None,
        },
    decreases most,
{
    reveal_with_fuel(room, 6);
    let b: i16 = byte_at(s, i);
    if most == 0 || b < 0 {
        return None;
    }
    if b < 128 {
        return Some((b as u64, i + 1));
    }
    match varint_at(s, i + 1, most - 1) {
        Some((rest, end)) => {
            assert(most == 1 || most == 2 || most == 3 || most == 4 || most == 5);
            assert(room(4) == 268435456);
            Some(((b - 128) as u64 + 128 * rest, end))
        },
        None => None,
    }
}

/// The number that a varint stands for where signs alternate, and where it ends.
pub open spec fn signed(s: Seq<u8>, i: int) -> Option<(int, int)> {
    match varint(s, i, 5) {
        Some((v, end)) => if v >= 0x1_0000_0000 {
            None
        } else if v % 2 == 0 {
            Some((v / 2, end))
        } else {
            Some((-(v / 2) - 1, end))
        },
        None => None,
    }
}

/// A number behind a tag.
pub open spec fn tagged(s: Seq<u8>, i: int, tag: int) -> Option<(int, int)> {
    if at(s, i) == tag {
        signed(s, i + 1)
    } else {
        None
    }
}

fn tagged_at(s: &[u8], i: usize, tag: i16) -> (r: Option<(i64, usize)>)
    requires
        tag >= 0,
    ensures
        match r {
            Some((v, end)) => {
                &&& tagged(s@, i as int, tag as int) == Some((v as int, end as int))
                &&& i < end <= s@.len()
                &&& -0x1_0000_0000 <= v <= 0x1_0000_0000
            },
            None => tagged(s@, i as int, tag as int) is None,
        },
{
    if byte_at(s, i) != tag {
        return None;
    }
    match varint_at(s, i + 1, 5) {
        None => None,
        Some((v, end)) => if v >= 0x1_0000_0000 {
            None
        } else if v % 2 == 0 {
            Some(((v / 2) as i64, end))
        } else {
            Some((-((v / 2) as i64) - 1, end))
        },
    }
}

/// Where a text behind a tag ends, its length first; the place itself where
/// there is no such tag.
pub open spec fn text_end(s: Seq<u8>, i: int, tag: int) -> Option<int> {
    if at(s, i) != tag {
        Some(i)
    } else {
        match varint(s, i + 1, 5) {
            Some((n, end)) => if end + n <= s.len() {
                Some(end + n)
            } else {
                None
            },
            None => None,
        }
    }
}

fn text_at(s: &[u8], i: usize, tag: i16) -> (r: Option<usize>)
    requires
        tag >= 0,
        i <= s@.len(),
    ensures
        match r {
            Some(end) => text_end(s@, i as int, tag as int) == Some(end as int) && i <= end
                <= s@.len(),
            None => text_end(s@, i as int, tag as int) is None,
        },
{
    if byte_at(s, i) != tag {
        return Some(i);
    }
    match varint_at(s, i + 1, 5) {
        Some((n, end)) => if n <= (s.len() - end) as u64 {
            Some(end + n as usize)
        } else {
            None
        },
        None => None,
    }
}

/// Whether a flag stands at a place.
pub open spec fn flag(s: Seq<u8>, i: int) -> bool {
    at(s, i) == 0x11 || at(s, i) == 0x12
}

fn is_flag(s: &[u8], i: usize) -> (r: bool)
    ensures
        r == flag(s@, i as int),
        r ==> i < s@.len(),
        s@.len() <= usize::MAX,
{
    let b: i16 = byte_at(s, i);
    b == 0x11 || b == 0x12
}

/// Where what an annotation of a kind says beyond its kind ends.
pub open spec fn detail_end(s: Seq<u8>, kind: int, i: int) -> Option<int> {
    if kind == 5 {
        match tagged(s, i, 0x15) {
            Some((_, j)) => match tagged(s, j, 0x15) {
                Some((_, k)) => Some(k),
                None => None,
            },
            None => None,
        }
    } else if kind == 7 || kind == 8 {
        if flag(s, i) && at(s, i + 1) == 0x1C && (at(s, i + 2) == 0x1C || at(s, i + 2) == 0x2C || at(
            s,
            i + 2,
        ) == 0x3C) && at(s, i + 3) == 0 && at(s, i + 4) == 0 {
            Some(i + 5)
        } else {
            None
        }
    } else if kind == 10 {
        if at(s, i) == 0x13 && at(s, i + 1) >= 0 && flag(s, i + 2) {
            Some(i + 3)
        } else {
            None
        }
    } else if kind == 16 {
        if at(s, i) == 0x13 && at(s, i + 1) >= 0 {
            Some(i + 2)
        } else {
            Some(i)
        }
    } else if kind == 17 {
        text_end(s, i, 0x18)
    } else if kind == 18 {
        match text_end(s, i, 0x18) {
            None => None,
            Some(j) => if at(s, j) == 0x15 || at(s, j) == 0x25 {
                match tagged(s, j, at(s, j)) {
                    Some((_, k)) => Some(k),
                    None => None,
                }
            } else {
                Some(j)
            },
        }
    } else {
        Some(i)
    }
}

fn detail_at(s: &[u8], kind: u8, i: usize) -> (r: Option<usize>)
    requires
        i <= s@.len(),
    ensures
        match r {
            Some(end) => detail_end(s@, kind as int, i as int) == Some(end as int) && i <= end
                <= s@.len(),
            None => detail_end(s@, kind as int, i as int) is None,
        },
{
    if kind == 5 {
        match tagged_at(s, i, 0x15) {
            Some((_, j)) => match tagged_at(s, j, 0x15) {
                Some((_, k)) => Some(k),
                None => None,
            },
            None => None,
        }
    } else if kind == 7 || kind == 8 {
        if s.len() - i < 5 {
            return None;
        }
        if is_flag(s, i) && s[i + 1] == 0x1C && (s[i + 2] == 0x1C || s[i + 2] == 0x2C || s[i + 2]
            == 0x3C) && s[i + 3] == 0 && s[i + 4] == 0 {
            Some(i + 5)
        } else {
            None
        }
    } else if kind == 10 {
        if s.len() - i < 3 {
            return None;
        }
        if s[i] == 0x13 && is_flag(s, i + 2) {
            Some(i + 3)
        } else {
            None
        }
    } else if kind == 16 {
        if s.len() - i >= 2 && s[i] == 0x13 {
            Some(i + 2)
        } else {
            Some(i)
        }
    } else if kind == 17 {
        text_at(s, i, 0x18)
    } else if kind == 18 {
        match text_at(s, i, 0x18) {
            None => None,
            Some(j) => {
                let tag: i16 = byte_at(s, j);
                if tag == 0x15 || tag == 0x25 {
                    match tagged_at(s, j, tag) {
                        Some((_, k)) => Some(k),
                        None => None,
                    }
                } else {
                    Some(j)
                }
            },
        }
    } else {
        Some(i)
    }
}

/// The annotation of a type that starts at a place: its kind and where it ends.
pub open spec fn annotation(s: Seq<u8>, i: int) -> Option<(int, int)> {
    let tag = at(s, i);
    let long = tag == 0x0C;
    let kind = if long {
        at(s, i + 1) / 2
    } else {
        tag / 16
    };
    let start = if long {
        i + 2
    } else {
        i + 1
    };
    if tag < 0 || tag % 16 != 12 || long && (at(s, i + 1) < 32 || at(s, i + 1) >= 128 || at(s, i + 1)
        % 2 != 0) {
        None
    } else {
        match detail_end(s, kind, start) {
            Some(end) => if at(s, end) == 0 && at(s, end + 1) == 0 {
                Some((kind, end + 2))
            } else {
                None
            },
            None => None,
        }
    }
}

fn annotation_at(s: &[u8], i: usize) -> (r: Option<(u8, usize)>)
    ensures
        match r {
            Some((kind, end)) => annotation(s@, i as int) == Some((kind as int, end as int)) && i
                < end <= s@.len(),
            None => annotation(s@, i as int) is None,
        },
{
    let tag: i16 = byte_at(s, i);
    if tag < 0 || tag % 16 != 12 {
        return None;
    }
    let mut kind: u8 = (tag / 16) as u8;
    let mut start: usize = i + 1;
    if tag == 0x0C {
        let b: i16 = byte_at(s, i + 1);
        if b < 32 || b >= 128 || b % 2 != 0 {
            return None;
        }
        kind = (b / 2) as u8;
        start = i + 2;
    }
    match detail_at(s, kind, start) {
        Some(end) => {
            if byte_at(s, end) != 0 {
                return None;
            }
            if byte_at(s, end + 1) != 0 {
                return None;
            }
            Some((kind, end + 2))
        },
        None => None,
    }
}

/// What an element of a schema says of itself: whether it is of a type, how it
/// repeats, how many elements stand below it, and how it is annotated, in the
/// two ways there are. What is not said is less than nought.
pub struct Element {
    pub typed: bool,
    pub repetition: int,
    pub children: int,
    pub converted: int,
    pub logical: int,
}

impl Element {
    /// Nothing said yet.
    pub open spec fn blank() -> Element {
        Element { typed: false, repetition: -1, children: 0, converted: -1, logical: -1 }
    }

    /// A number said under an id.
    pub open spec fn with(self, id: int, v: int) -> Element {
        if id == 1 {
            Element { typed: true, ..self }
        } else if id == 3 {
            Element { repetition: v, ..self }
        } else if id == 5 {
            Element { children: v, ..self }
        } else if id == 6 {
            Element { converted: v, ..self }
        } else {
            self
        }
    }

    /// Whether it is annotated as a map.
    pub open spec fn is_map(self) -> bool {
        self.converted == 1 || self.converted == 2 || self.converted < 0 && self.logical == 2
    }

    /// Whether it is annotated as a list.
    pub open spec fn is_list(self) -> bool {
        self.converted == 3 || self.converted < 0 && self.logical == 3
    }

    /// Whether it is a column that repeats.
    pub open spec fn is_repeated_column(self) -> bool {
        self.typed && self.children <= 0 && self.repetition == 2
    }
}

/// The element of a schema whose fields from a place on follow the field `last`,
/// after those had said `e`; and where it ends.
pub open spec fn element(s: Seq<u8>, i: int, last: int, e: Element) -> Option<(Element, int)>
    decreases s.len() - i,
{
    let tag = at(s, i);
    let id = last + tag / 16;
    if i < 0 || tag < 0 {
        None
    } else if tag == 0 {
        Some((e, i + 1))
    } else if tag < 16 {
        None
    } else if id == 4 && tag % 16 == 8 {
        match text_end(s, i, tag) {
            Some(end) => if i < end <= s.len() {
                element(s, end, id, e)
            } else {
                None
            },
            None => None,
        }
    } else if id != 4 && id < 10 && tag % 16 == 5 {
        match tagged(s, i, tag) {
            Some((v, end)) => if i < end <= s.len() {
                element(s, end, id, e.with(id, v))
            } else {
                None
            },
            None => None,
        }
    } else if id == 10 && tag % 16 == 12 {
        match annotation(s, i + 1) {
            Some((kind, end)) => if i < end <= s.len() {
                element(s, end, id, Element { logical: kind, ..e })
            } else {
                None
            },
            None => None,
        }
    } else {
        None
    }
}

/// What an element says of itself, in machine numbers.
struct Node {
    typed: bool,
    repetition: i64,
    children: i64,
    converted: i64,
    logical: i64,
}

impl Node {
    spec fn says(self) -> Element {
        Element {
            typed: self.typed,
            repetition: self.repetition as int,
            children: self.children as int,
            converted: self.converted as int,
            logical: self.logical as int,
        }
    }
}

fn element_at(s: &[u8], start: usize) -> (r: Option<(Node, usize)>)
    ensures
        match r {
            Some((e, end)) => {
                &&& element(s@, start as int, 0, Element::blank()) == Some((e.says(), end as int))
                &&& start < end <= s@.len()
            },
            None => element(s@, start as int, 0, Element::blank()) is None,
        },
{
    let n: usize = s.len();
    let mut i: usize = start;
    let mut last: i16 = 0;
    let mut e = Node { typed: false, repetition: -1, children: 0, converted: -1, logical: -1 };
    while i < n
        invariant
            n == s@.len(),
            start <= i,
            i <= n || i == start,
            0 <= last <= 10,
            element(s@, start as int, 0, Element::blank()) == element(
                s@,
                i as int,
                last as int,
                e.says(),
            ),
        decreases n - i,
    {
        let tag: i16 = s[i] as i16;
        assert(tag == at(s@, i as int));
        if tag == 0 {
            return Some((e, i + 1));
        }
        if tag < 16 {
            return None;
        }
        let id: i16 = last + tag / 16;
        let kind: i16 = tag % 16;
        if id == 4 && kind == 8 {
            match text_at(s, i, tag) {
                Some(end) => {
                    if end <= i {
                        return None;
                    }
                    i = end;
                },
                None => {
                    return None;
                },
            }
        } else if id != 4 && id < 10 && kind == 5 {
            match tagged_at(s, i, tag) {
                Some((v, end)) => {
                    i = end;
                    if id == 1 {
                        e.typed = true;
                    } else if id == 3 {
                        e.repetition = v;
                    } else if id == 5 {
                        e.children = v;
                    } else if id == 6 {
                        e.converted = v;
                    }
                },
                None => {
                    return None;
                },
            }
        } else if id == 10 && kind == 12 {
            match annotation_at(s, i + 1) {
                Some((logical, end)) => {
                    i = end;
                    e.logical = logical as i64;
                },
                None => {
                    return None;
                },
            }
        } else {
            return None;
        }
        last = id;
    }
    None
}

/// How deep a schema may nest.
pub const DEPTH: usize = 64;

/// How many elements are still to come below each that is open, once those with
/// none are closed.
pub open spec fn still_open(open: Seq<int>) -> Seq<int>
    decreases open.len(),
{
    if open.len() > 0 && open.last() <= 0 {
        still_open(open.drop_last())
    } else {
        open
    }
}

/// The same, after one more element with a number of them below it.
pub open spec fn opened(open: Seq<int>, children: int) -> Seq<int> {
    let now = still_open(open);
    let less = if now.len() > 0 {
        now.update(now.len() - 1, now.last() - 1)
    } else {
        now
    };
    if children > 0 {
        less.push(children)
    } else {
        less
    }
}

/// Whether `n` elements of a schema of `total` stand from a place on, none of
/// them one that the reader stops the program on: too many below one or too
/// deep, a map of nothing but a column that repeats. `alone` says that the
/// element before was a map of one.
pub open spec fn elements_sound(
    s: Seq<u8>,
    i: int,
    n: nat,
    total: int,
    open: Seq<int>,
    alone: bool,
) -> bool
    decreases n,
{
    if n == 0 {
        true
    } else {
        match element(s, i, 0, Element::blank()) {
            None => false,
            Some((e, end)) => {
                &&& !(alone && e.is_repeated_column())
                &&& e.children <= total
                &&& opened(open, e.children).len() <= DEPTH
                &&& elements_sound(
                    s,
                    end,
                    (n - 1) as nat,
                    total,
                    opened(open, e.children),
                    e.is_map() && e.children == 1,
                )
            },
        }
    }
}

/// Where a footer's schema starts and how many elements it says it has.
pub open spec fn schema_list(s: Seq<u8>) -> Option<(int, int)> {
    match tagged(s, 0, 0x15) {
        None => None,
        Some((_, i)) => if at(s, i) != 0x19 {
            None
        } else if at(s, i + 1) == 0xFC {
            match varint(s, i + 2, 5) {
                Some((n, end)) => Some((end, n)),
                None => None,
            }
        } else if at(s, i + 1) >= 0 && at(s, i + 1) % 16 == 12 {
            Some((i + 2, at(s, i + 1) / 16))
        } else {
            None
        },
    }
}

/// Whether a footer's schema is one that the reader can follow: the root is
/// neither a list nor a map.
pub open spec fn schema_sound(s: Seq<u8>) -> bool {
    match schema_list(s) {
        None => false,
        Some((i, n)) => match element(s, i, 0, Element::blank()) {
            None => n <= 0,
            Some((root, _)) => {
                &&& n > 0 ==> !root.is_list() && !root.is_map()
                &&& elements_sound(s, i, n as nat, n, Seq::empty(), false)
            },
        },
    }
}

/// Counts as they are kept while a schema is walked.
spec fn counts(open: Seq<i64>) -> Seq<int> {
    open.map_values(|c: i64| c as int)
}

/// One more element among the counts of those that are open.
fn open_more(open: &mut Vec<i64>, children: i64)
    ensures
        counts(final(open)@) == opened(counts(old(open)@), children as int),
{
    let mut more = true;
    while more
        invariant
            still_open(counts(open@)) == still_open(counts(old(open)@)),
            !more ==> open@.len() == 0 || open@.last() > 0,
        decreases open@.len(), (if more {
            1int
        } else {
            0int
        }),
    {
        let k: usize = open.len();
        if k > 0 && open[k - 1] <= 0 {
            assert(counts(open@).last() <= 0);
            assert(counts(open@).drop_last() =~= counts(open@.drop_last()));
            open.pop();
        } else {
            more = false;
        }
    }
    let ghost now = counts(open@);
    let k: usize = open.len();
    if k > 0 {
        assert(now.last() == open@.last());
        let c: i64 = open[k - 1];
        open.set(k - 1, c - 1);
        assert(counts(open@) =~= now.update(k - 1, now.last() - 1));
    }
    let ghost less = counts(open@);
    if children > 0 {
        open.push(children);
        assert(counts(open@) =~= less.push(children as int));
    }
}

fn is_schema_sound(s: &[u8]) -> (r: bool)
    ensures
        r == schema_sound(s@),
{
    let i: usize = match tagged_at(s, 0, 0x15) {
        None => {
            return false;
        },
        Some((_, i)) => i,
    };
    if byte_at(s, i) != 0x19 {
        return false;
    }
    let head: i16 = byte_at(s, i + 1);
    if head < 0 {
        return false;
    }
    let mut n: u64 = (head / 16) as u64;
    let mut at: usize = i + 2;
    if head == 0xFC {
        match varint_at(s, i + 2, 5) {
            Some((count, end)) => {
                n = count;
                at = end;
            },
            None => {
                return false;
            },
        }
    } else if head % 16 != 12 {
        return false;
    }
    assert(schema_list(s@) == Some((at as int, n as int)));
    match element_at(s, at) {
        None => {
            return n == 0;
        },
        Some((root, _)) => {
            if n > 0 && (root.converted == 1 || root.converted == 2 || root.converted == 3
                || root.converted < 0 && (root.logical == 2 || root.logical == 3)) {
                return false;
            }
        },
    }
    proof {
        reveal_with_fuel(room, 6);
    }
    let total: i64 = n as i64;
    let mut left: u64 = n;
    let mut alone = false;
    let mut open: Vec<i64> = Vec::new();
    assert(counts(open@) =~= Seq::<int>::empty());
    while left > 0
        invariant
            total == n,
            schema_sound(s@) == elements_sound(
                s@,
                at as int,
                left as nat,
                total as int,
                counts(open@),
                alone,
            ),
        decreases left,
    {
        match element_at(s, at) {
            None => {
                return false;
            },
            Some((e, end)) => {
                if alone && e.typed && e.children <= 0 && e.repetition == 2 {
                    return false;
                }
                if e.children > total {
                    return false;
                }
                open_more(&mut open, e.children);
                if open.len() > DEPTH {
                    return false;
                }
                alone = e.children == 1 && (e.converted == 1 || e.converted == 2 || e.converted < 0
                    && e.logical == 2);
                at = end;
            },
        }
        left = left - 1;
    }
    true
}

/// The length of the footer, as a file's last bytes give it.
pub open spec fn footer_length(file: Seq<u8>) -> int {
    let n = file.len() as int;
    at(file, n - 8) + 256 * at(file, n - 7) + 65536 * at(file, n - 6) + 16777216 * at(
        file,
        n - 5,
    )
}

/// Whether a file ends in a footer.
pub open spec fn has_footer(file: Seq<u8>) -> bool {
    let n = file.len() as int;
    &&& n >= 8
    &&& at(file, n - 4) == 0x50 && at(file, n - 3) == 0x41 && at(file, n - 2) == 0x52 && at(
        file,
        n - 1,
    ) == 0x31
    &&& footer_length(file) + 8 <= n
}

/// Whether a file's footer, if it has one, can be followed.
pub open spec fn footer_sound(file: Seq<u8>) -> bool {
    let n = file.len() as int;
    has_footer(file) ==> schema_sound(file.subrange(n - 8 - footer_length(file), n - 8))
}

pub fn is_footer_sound(file: &[u8]) -> (r: bool)
    ensures
        r == footer_sound(file@),
{
    let n: usize = file.len();
    if n < 8 || file[n - 4] != 0x50 || file[n - 3] != 0x41 || file[n - 2] != 0x52 || file[n - 1]
        != 0x31 {
        return true;
    }
    let length: u64 = file[n - 8] as u64 + 256 * file[n - 7] as u64 + 65536 * file[n - 6] as u64
        + 16777216 * file[n - 5] as u64;
    assert(length == footer_length(file@));
    if length > (n - 8) as u64 {
        return true;
    }
    is_schema_sound(slice_subrange(file, n - 8 - length as usize, n - 8))
}

/// Where a number of as many bytes as it needs ends, if it ends within a number
/// of them.
pub open spec fn number_end(s: Seq<u8>, i: int, most: nat) -> Option<int>
    decreases most,
{
    if most == 0 || at(s, i) < 0 {
        None
    } else if at(s, i) < 128 {
        Some(i + 1)
    } else {
        number_end(s, i + 1, (most - 1) as nat)
    }
}

fn number_at(s: &[u8], i: usize, most: u8) -> (r: Option<usize>)
    ensures
        match r {
            Some(end) => number_end(s@, i as int, most as nat) == Some(end as int) && i < end
                <= s@.len(),
            None => number_end(s@, i as int, most as nat) is None,
        },
    decreases most,
{
    let b: i16 = byte_at(s, i);
    if most == 0 || b < 0 {
        None
    } else if b < 128 {
        Some(i + 1)
    } else {
        number_at(s, i + 1, most - 1)
    }
}

/// Where a group of fields that are flags, numbers and texts ends.
pub open spec fn fields_end(s: Seq<u8>, i: int) -> Option<int>
    decreases s.len() - i,
{
    let tag = at(s, i);
    let kind = tag % 16;
    if i < 0 || tag < 0 {
        None
    } else if tag == 0 {
        Some(i + 1)
    } else if tag < 16 {
        None
    } else {
        let end = if kind == 1 || kind == 2 {
            Some(i + 1)
        } else if kind == 5 || kind == 6 {
            number_end(s, i + 1, 10)
        } else if kind == 8 {
            text_end(s, i, tag)
        } else {
            None
        };
        match end {
            Some(j) => if i < j <= s.len() {
                fields_end(s, j)
            } else {
                None
            },
            None => None,
        }
    }
}

fn fields_at(s: &[u8], start: usize) -> (r: Option<usize>)
    ensures
        match r {
            Some(end) => fields_end(s@, start as int) == Some(end as int) && start < end
                <= s@.len(),
            None => fields_end(s@, start as int) is None,
        },
{
    let n: usize = s.len();
    let mut i: usize = start;
    while i < n
        invariant
            n == s@.len(),
            start <= i,
            i <= n || i == start,
            fields_end(s@, start as int) == fields_end(s@, i as int),
        decreases n - i,
    {
        let tag: i16 = s[i] as i16;
        assert(tag == at(s@, i as int));
        if tag == 0 {
            return Some(i + 1);
        }
        if tag < 16 {
            return None;
        }
        let kind: i16 = tag % 16;
        let end = if kind == 1 || kind == 2 {
            Some(i + 1)
        } else if kind == 5 || kind == 6 {
            number_at(s, i + 1, 10)
        } else if kind == 8 {
            text_at(s, i, tag)
        } else {
            None
        };
        match end {
            Some(j) => {
                if j <= i {
                    return None;
                }
                i = j;
            },
            None => {
                return None;
            },
        }
    }
    None
}

/// What the header of a page says: its kind, its sizes unpacked and packed, how
/// its values are coded, how many bytes of levels come before them where it
/// says so, and where its body starts.
pub struct PageHead {
    pub kind: int,
    pub unpacked: int,
    pub packed: int,
    pub coding: int,
    pub before: int,
    pub levels: int,
    pub body: int,
}

/// Where a number of numbers behind tags end.
pub open spec fn numbers_end(s: Seq<u8>, i: int, n: nat) -> Option<int>
    decreases n,
{
    if n == 0 {
        Some(i)
    } else {
        match tagged(s, i, 0x15) {
            Some((_, j)) => numbers_end(s, j, (n - 1) as nat),
            None => None,
        }
    }
}

fn numbers_at(s: &[u8], i: usize, n: u8) -> (r: Option<usize>)
    requires
        i <= s@.len(),
    ensures
        match r {
            Some(end) => numbers_end(s@, i as int, n as nat) == Some(end as int) && i <= end
                <= s@.len(),
            None => numbers_end(s@, i as int, n as nat) is None,
        },
    decreases n,
{
    if n == 0 {
        return Some(i);
    }
    match tagged_at(s, i, 0x15) {
        Some((_, j)) => numbers_at(s, j, n - 1),
        None => None,
    }
}

/// The part of a header that is of its kind: how the values are coded, the
/// bytes of levels, and where it ends. It starts behind its own tag.
pub open spec fn page_part(s: Seq<u8>, i: int, kind: int) -> Option<(int, int, int, int)> {
    match numbers_end(s, i, if kind == 3 {
        3
    } else {
        1
    }) {
        None => None,
        Some(j) => match tagged(s, j, 0x15) {
            None => None,
            Some((coding, k)) => if kind == 2 {
                Some(
                    (coding, 0, 0, if flag(s, k) {
                        k + 1
                    } else {
                        k
                    }),
                )
            } else {
                match tagged(s, k, 0x15) {
                    None => None,
                    Some((levels, l)) => match tagged(s, l, 0x15) {
                        None => None,
                        Some((before, m)) => {
                            let said = kind == 3 && flag(s, m);
                            let e = if said {
                                m + 1
                            } else {
                                m
                            };
                            let mark: int = if kind == 3 && !said {
                                0x2C
                            } else {
                                0x1C
                            };
                            let end = if at(s, e) == mark {
                                fields_end(s, e + 1)
                            } else {
                                Some(e)
                            };
                            match end {
                                None => None,
                                Some(e) => if kind == 3 {
                                    Some((coding, before, levels, e))
                                } else {
                                    Some((coding, 0, 0, e))
                                },
                            }
                        },
                    },
                }
            },
        },
    }
}

fn part_at(s: &[u8], i: usize, kind: u8) -> (r: Option<(i64, i64, i64, usize)>)
    requires
        i <= s@.len(),
    ensures
        match r {
            Some((coding, before, levels, end)) => {
                &&& page_part(s@, i as int, kind as int) == Some(
                    (coding as int, before as int, levels as int, end as int),
                )
                &&& i <= end <= s@.len()
                &&& before <= 0x1_0000_0000
                &&& levels <= 0x1_0000_0000
            },
            None => page_part(s@, i as int, kind as int) is None,
        },
{
    let j: usize = match numbers_at(s, i, if kind == 3 {
        3
    } else {
        1
    }) {
        None => {
            return None;
        },
        Some(j) => j,
    };
    let (coding, k): (i64, usize) = match tagged_at(s, j, 0x15) {
        None => {
            return None;
        },
        Some(x) => x,
    };
    if kind == 2 {
        return Some(
            (coding, 0, 0, if is_flag(s, k) {
                k + 1
            } else {
                k
            }),
        );
    }
    let (levels, l): (i64, usize) = match tagged_at(s, k, 0x15) {
        None => {
            return None;
        },
        Some(x) => x,
    };
    let (before, m): (i64, usize) = match tagged_at(s, l, 0x15) {
        None => {
            return None;
        },
        Some(x) => x,
    };
    let said = kind == 3 && is_flag(s, m);
    let e: usize = if said {
        m + 1
    } else {
        m
    };
    let mark: i16 = if kind == 3 && !said {
        0x2C
    } else {
        0x1C
    };
    let mut end: usize = e;
    if byte_at(s, e) == mark {
        match fields_at(s, e + 1) {
            None => {
                return None;
            },
            Some(x) => {
                end = x;
            },
        }
    }
    if kind == 3 {
        Some((coding, before, levels, end))
    } else {
        Some((coding, 0, 0, end))
    }
}

/// The rest of a header, once its kind and sizes are known and its field `last`
/// was read.
pub open spec fn page_tail(
    s: Seq<u8>,
    i: int,
    last: int,
    kind: int,
    unpacked: int,
    packed: int,
) -> Option<PageHead> {
    let id = last + at(s, i) / 16;
    if at(s, i) < 0 || at(s, i) % 16 != 12 || !(kind == 0 && id == 5 || kind == 2 && id == 7 || kind
        == 3 && id == 8) {
        None
    } else {
        match page_part(s, i + 1, kind) {
            None => None,
            Some((coding, before, levels, e)) => if at(s, e) == 0 && at(s, e + 1) == 0 {
                Some(PageHead { kind, unpacked, packed, coding, before, levels, body: e + 2 })
            } else {
                None
            },
        }
    }
}

/// The header of the page that starts at a place.
#[verifier::opaque]
pub open spec fn page_head(s: Seq<u8>, i: int) -> Option<PageHead> {
    match tagged(s, i, 0x15) {
        None => None,
        Some((kind, a)) => match tagged(s, a, 0x15) {
            None => None,
            Some((unpacked, b)) => match tagged(s, b, 0x15) {
                None => None,
                Some((packed, c)) => if at(s, c) == 0x15 {
                    match tagged(s, c, 0x15) {
                        None => None,
                        Some((_, d)) => page_tail(s, d, 4, kind, unpacked, packed),
                    }
                } else {
                    page_tail(s, c, 3, kind, unpacked, packed)
                },
            },
        },
    }
}

/// What the header of a page says, in machine numbers.
struct Head {
    kind: u8,
    unpacked: i64,
    packed: i64,
    coding: i64,
    before: i64,
    levels: i64,
    body: usize,
}

impl Head {
    spec fn says(self) -> PageHead {
        PageHead {
            kind: self.kind as int,
            unpacked: self.unpacked as int,
            packed: self.packed as int,
            coding: self.coding as int,
            before: self.before as int,
            levels: self.levels as int,
            body: self.body as int,
        }
    }
}

fn head_at(s: &[u8], i: usize) -> (r: Option<Head>)
    ensures
        match r {
            Some(h) => {
                &&& page_head(s@, i as int) == Some(h.says())
                &&& i < h.body <= s@.len()
                &&& h.packed <= 0x1_0000_0000
                &&& h.before <= 0x1_0000_0000
                &&& h.levels <= 0x1_0000_0000
            },
            None => page_head(s@, i as int) is None,
        },
{
    proof {
        reveal(page_head);
    }
    let (kind, a): (i64, usize) = match tagged_at(s, i, 0x15) {
        None => {
            return None;
        },
        Some(x) => x,
    };
    let (unpacked, b): (i64, usize) = match tagged_at(s, a, 0x15) {
        None => {
            return None;
        },
        Some(x) => x,
    };
    let (packed, c): (i64, usize) = match tagged_at(s, b, 0x15) {
        None => {
            return None;
        },
        Some(x) => x,
    };
    let mut d: usize = c;
    let mut last: i16 = 3;
    if byte_at(s, c) == 0x15 {
        match tagged_at(s, c, 0x15) {
            None => {
                return None;
            },
            Some((_, x)) => {
                d = x;
                last = 4;
            },
        }
    }
    let tag: i16 = byte_at(s, d);
    if tag < 0 || tag % 16 != 12 {
        return None;
    }
    let id: i16 = last + tag / 16;
    let kind: u8 = if kind == 0 && id == 5 {
        0
    } else if kind == 2 && id == 7 {
        2
    } else if kind == 3 && id == 8 {
        3
    } else {
        return None;
    };
    match part_at(s, d + 1, kind) {
        None => None,
        Some((coding, before, levels, e)) => {
            if byte_at(s, e) != 0 {
                return None;
            }
            if byte_at(s, e + 1) != 0 {
                return None;
            }
            Some(Head { kind, unpacked, packed, coding, before, levels, body: e + 2 })
        },
    }
}

/// Whether a page may follow what came before it in a chunk: its levels within
/// it, and a dictionary ahead of it if it is coded against one.
pub open spec fn page_allowed(h: PageHead, dictionary: bool) -> bool {
    &&& h.unpacked >= 0 && h.packed >= 0 && h.before >= 0 && h.levels >= 0
    &&& h.before + h.levels <= h.unpacked && h.before + h.levels <= h.packed
    &&& h.kind != 2 && (h.coding == 2 || h.coding == 8) ==> dictionary
}

/// Whether pages in order fill a number of bytes from a place on.
pub open spec fn pages_sound(s: Seq<u8>, i: int, left: int, dictionary: bool) -> bool
    decreases left,
{
    if left <= 0 {
        left == 0
    } else {
        match page_head(s, i) {
            None => false,
            Some(h) => {
                let size = h.body - i + h.packed;
                if 0 < size <= left && i + size <= s.len() && page_allowed(h, dictionary) {
                    pages_sound(s, i + size, left - size, dictionary || h.kind == 2)
                } else {
                    false
                }
            },
        }
    }
}

/// Whether the pages of a chunk are in order.
pub fn are_pages_sound(s: &[u8], start: usize, length: usize) -> (r: bool)
    ensures
        r == pages_sound(s@, start as int, length as int, false),
{
    let n: usize = s.len();
    if length == 0 {
        return true;
    }
    let mut i: usize = start;
    let mut left: usize = length;
    let mut dictionary = false;
    while left > 0
        invariant
            n == s@.len(),
            i <= n || i == start,
            pages_sound(s@, start as int, length as int, false) == pages_sound(
                s@,
                i as int,
                left as int,
                dictionary,
            ),
        decreases left,
    {
        match head_at(s, i) {
            None => {
                return false;
            },
            Some(h) => {
                if h.unpacked < 0 || h.packed < 0 || h.before < 0 || h.levels < 0 {
                    return false;
                }
                let head: usize = h.body - i;
                let packed: u64 = h.packed as u64;
                if head > left || packed > (left - head) as u64 || packed > (n - h.body) as u64 {
                    return false;
                }
                if h.before + h.levels > h.unpacked || h.before + h.levels > h.packed {
                    return false;
                }
                if h.kind != 2 && (h.coding == 2 || h.coding == 8) && !dictionary {
                    return false;
                }
                i = h.body + packed as usize;
                left = left - head - packed as usize;
                dictionary = dictionary || h.kind == 2;
            },
        }
    }
    true
}

/// Whether the numbers before the runs of places in a dictionary that stand from
/// a place on, each place of a number of bits, all end, until a number of values
/// are had or the bytes run out.
pub open spec fn runs_sound(s: Seq<u8>, i: int, width: int, values: int) -> bool
    decreases s.len() - i,
{
    if i < 0 || i >= s.len() {
        true
    } else {
        match varint(s, i, 5) {
            None => i + 5 > s.len(),
            Some((v, end)) => {
                let count = if v % 2 == 1 {
                    8 * (v / 2)
                } else {
                    v / 2
                };
                let size = if v % 2 == 1 {
                    (v / 2) * width
                } else {
                    (width + 7) / 8
                };
                if v == 0 || count >= values || end <= i || size < 0 || end + size > s.len() {
                    true
                } else {
                    runs_sound(s, end + size, width, values - count)
                }
            },
        }
    }
}

/// Whether the body of a page coded against a dictionary is in order: the width
/// of a place, and the runs.
pub open spec fn places_sound(s: Seq<u8>, values: int) -> bool {
    s.len() > 0 ==> runs_sound(s, 1, at(s, 0), values)
}

pub fn are_places_sound(s: &[u8], values: u32) -> (r: bool)
    ensures
        r == places_sound(s@, values as int),
{
    let n: usize = s.len();
    if n == 0 {
        return true;
    }
    let width: u64 = s[0] as u64;
    let mut i: usize = 1;
    let mut left: i64 = values as i64;
    while i < n
        invariant
            n == s@.len(),
            1 <= i <= n,
            width <= 255,
            left <= u32::MAX,
            places_sound(s@, values as int) == runs_sound(s@, i as int, width as int, left as int),
        decreases n - i,
    {
        match varint_at(s, i, 5) {
            None => {
                return n - i < 5;
            },
            Some((v, end)) => {
                reveal_with_fuel(room, 6);
                let half: u64 = v / 2;
                let packed = v % 2 == 1;
                assert(half * width <= half * 255) by (nonlinear_arith)
                    requires
                        width <= 255,
                        half >= 0,
                ;
                assert(half * width >= 0) by (nonlinear_arith)
                    requires
                        width >= 0,
                        half >= 0,
                ;
                let count: u64 = if packed {
                    8 * half
                } else {
                    half
                };
                let size: u64 = if packed {
                    half * width
                } else {
                    (width + 7) / 8
                };
                if v == 0 || count as i64 >= left || size > (n - end) as u64 {
                    return true;
                }
                i = end + size as usize;
                left = left - count as i64;
            },
        }
    }
    true
}

/// Whether the runs of levels that stand from a place on, a bit each, have the
/// bytes they say they have, until a number of levels are had or the bytes run
/// out.
pub open spec fn levels_sound(s: Seq<u8>, i: int, levels: int) -> bool
    decreases s.len() - i,
{
    if i < 0 || i >= s.len() || levels <= 0 {
        true
    } else {
        match varint(s, i, 5) {
            None => i + 5 > s.len(),
            Some((v, end)) => if v < 0 || end <= i {
                false
            } else if v % 2 == 1 {
                let count = 8 * (v / 2);
                let needed = if count < levels {
                    v / 2
                } else {
                    (levels + 7) / 8
                };
                end + needed <= s.len() && levels_sound(s, end + needed, levels - count)
            } else {
                end >= s.len() || levels_sound(s, end + 1, levels - v / 2)
            },
        }
    }
}

fn are_levels_sound(s: &[u8], levels: u32) -> (r: bool)
    ensures
        r == levels_sound(s@, 0, levels as int),
{
    let n: usize = s.len();
    let mut i: usize = 0;
    let mut left: i64 = levels as i64;
    while i < n && left > 0
        invariant
            n == s@.len(),
            i <= n,
            left <= u32::MAX,
            levels_sound(s@, 0, levels as int) == levels_sound(s@, i as int, left as int),
        decreases n - i,
    {
        match varint_at(s, i, 5) {
            None => {
                return n - i < 5;
            },
            Some((v, end)) => {
                reveal_with_fuel(room, 6);
                let half: u64 = v / 2;
                if v % 2 == 1 {
                    let count: i64 = 8 * half as i64;
                    let needed: u64 = if count < left {
                        half
                    } else {
                        (left as u64 + 7) / 8
                    };
                    if needed > (n - end) as u64 {
                        return false;
                    }
                    i = end + needed as usize;
                    left = left - count;
                } else {
                    if end >= n {
                        return true;
                    }
                    i = end + 1;
                    left = left - half as i64;
                }
            },
        }
    }
    true
}

/// The weight of a bit of a byte.
pub open spec fn weight(k: int) -> int {
    if k == 0 {
        1
    } else if k == 1 {
        2
    } else if k == 2 {
        4
    } else if k == 3 {
        8
    } else if k == 4 {
        16
    } else if k == 5 {
        32
    } else if k == 6 {
        64
    } else {
        128
    }
}

fn weight_of(k: u8) -> (r: i16)
    ensures
        r == weight(k as int),
        r > 0,
{
    match k {
        0 => 1,
        1 => 2,
        2 => 4,
        3 => 8,
        4 => 16,
        5 => 32,
        6 => 64,
        _ => 128,
    }
}

/// How many of the first `n` bits from a place on are set.
pub open spec fn bits_set(s: Seq<u8>, i: int, n: nat) -> int
    decreases n,
{
    if n == 0 {
        0
    } else {
        let k = n - 1;
        bits_set(s, i, k as nat) + (at(s, i + k / 8) / weight(k % 8)) % 2
    }
}

fn bits_set_at(s: &[u8], i: usize, n: u32) -> (r: u32)
    requires
        i + (n + 7) / 8 <= s@.len(),
    ensures
        r == bits_set(s@, i as int, n as nat),
        r <= n,
{
    let total: usize = s.len();
    let mut r: u32 = 0;
    let mut k: u32 = 0;
    while k < n
        invariant
            k <= n,
            total == s@.len(),
            i + (n + 7) / 8 <= s@.len(),
            r == bits_set(s@, i as int, k as nat),
            r <= k,
        decreases n - k,
    {
        assert(k / 8 < (n + 7) / 8);
        let b: i16 = byte_at(s, i + (k / 8) as usize);
        assert(b >= 0);
        let w: i16 = weight_of((k % 8) as u8);
        if (b / w) % 2 == 1 {
            r = r + 1;
        }
        k = k + 1;
    }
    r
}

/// How many of the runs of levels that stand from a place on say that a value is
/// there.
pub open spec fn present(s: Seq<u8>, i: int, levels: int) -> int
    decreases s.len() - i,
{
    if i < 0 || i >= s.len() || levels <= 0 {
        0
    } else {
        match varint(s, i, 5) {
            None => 0,
            Some((v, end)) => if v < 0 || end <= i {
                0
            } else {
                let half = v / 2;
                let count = if v % 2 == 1 {
                    8 * half
                } else {
                    half
                };
                let size = if v % 2 == 1 {
                    half
                } else {
                    1
                };
                let n = if count < levels {
                    count
                } else {
                    levels
                };
                let here = if v % 2 == 1 {
                    bits_set(s, end, n as nat)
                } else if at(s, end) > 0 {
                    n
                } else {
                    0
                };
                if end + size > s.len() {
                    here
                } else {
                    here + present(s, end + size, levels - count)
                }
            },
        }
    }
}

fn present_at(s: &[u8], levels: u32) -> (r: u32)
    requires
        levels_sound(s@, 0, levels as int),
    ensures
        r == present(s@, 0, levels as int),
        r <= levels,
{
    let n: usize = s.len();
    let mut r: u32 = 0;
    let mut i: usize = 0;
    let mut left: i64 = levels as i64;
    while i < n && left > 0
        invariant
            n == s@.len(),
            i <= n,
            left <= u32::MAX,
            left > 0 ==> r + left <= levels,
            r <= levels,
            levels_sound(s@, i as int, left as int),
            present(s@, 0, levels as int) == r + present(s@, i as int, left as int),
        decreases n - i,
    {
        match varint_at(s, i, 5) {
            None => {
                return r;
            },
            Some((v, end)) => {
                reveal_with_fuel(room, 6);
                let half: u64 = v / 2;
                if v % 2 == 1 {
                    let count: i64 = 8 * half as i64;
                    let take: u32 = if count < left {
                        count as u32
                    } else {
                        left as u32
                    };
                    r = r + bits_set_at(s, end, take);
                    left = left - count;
                    if left <= 0 {
                        assert(present(s@, end + half, left as int) == 0);
                        return r;
                    }
                    i = end + half as usize;
                } else {
                    let take: u32 = if (half as i64) < left {
                        half as u32
                    } else {
                        left as u32
                    };
                    if end >= n {
                        return r;
                    }
                    if s[end] > 0 {
                        r = r + take;
                    }
                    left = left - half as i64;
                    i = end + 1;
                }
            },
        }
    }
    r
}

/// Whether the narrow blocks of a block of differences from the `k`th on can be
/// read: `widths` is where their widths stand, and `i` where the next one's bits
/// do. The next block follows the last of them.
pub open spec fn blocks_sound(
    s: Seq<u8>,
    widths: int,
    k: int,
    i: int,
    narrow: int,
    per: int,
    values: int,
) -> bool
    decreases s.len() - widths, narrow - k,
{
    if values <= 0 || narrow <= 0 {
        true
    } else if k < 0 || k >= narrow {
        match number_end(s, i, 10) {
            None => i + 10 >= s.len(),
            Some(end) => if end <= widths || end + narrow > s.len() {
                true
            } else {
                blocks_sound(s, end, 0, end + narrow, narrow, per, values)
            },
        }
    } else {
        let width = at(s, widths + k);
        if width > 64 || i + per * width / 8 > s.len() {
            true
        } else {
            blocks_sound(s, widths, k + 1, i + per * width / 8, narrow, per, values - per)
        }
    }
}

/// Whether the body of a page of differences is in order: the sizes of its
/// blocks, how many values it has, the first of them, and the blocks.
pub open spec fn differences_sound(s: Seq<u8>, values: int) -> bool {
    match varint(s, 0, 5) {
        None => s.len() < 5,
        Some((block, a)) => match varint(s, a, 5) {
            None => s.len() < a + 5,
            Some((narrow, b)) => narrow == 0 || match varint(s, b, 5) {
                None => s.len() < b + 5,
                Some((count, c)) => match number_end(s, c, 10) {
                    None => c + 10 >= s.len(),
                    Some(d) => if block % 128 != 0 || block % narrow != 0 || (block / narrow) % 32
                        != 0 {
                        true
                    } else if block == 0 || block > 0x10_0000 {
                        false
                    } else if count == 0 {
                        values == 0
                    } else {
                        blocks_sound(
                            s,
                            d,
                            narrow,
                            d,
                            narrow,
                            block / narrow,
                            if count < values {
                                count - 1
                            } else {
                                values - 1
                            },
                        )
                    },
                },
            },
        },
    }
}

fn are_blocks_sound(s: &[u8], start: usize, narrow: u32, per: u32, values: i64) -> (r: bool)
    requires
        start <= s@.len(),
        1 <= narrow,
        per <= 0x10_0000,
        values <= 0x8_0000_0000,
    ensures
        r == blocks_sound(
            s@,
            start as int,
            narrow as int,
            start as int,
            narrow as int,
            per as int,
            values as int,
        ),
{
    let n: usize = s.len();
    let mut widths: usize = start;
    let mut k: u32 = narrow;
    let mut i: usize = start;
    let mut left: i64 = values;
    while left > 0
        invariant
            n == s@.len(),
            1 <= narrow,
            per <= 0x10_0000,
            k <= narrow,
            widths <= i <= n,
            k < narrow ==> widths + narrow <= i,
            left <= 0x8_0000_0000,
            blocks_sound(
                s@,
                start as int,
                narrow as int,
                start as int,
                narrow as int,
                per as int,
                values as int,
            ) == blocks_sound(
                s@,
                widths as int,
                k as int,
                i as int,
                narrow as int,
                per as int,
                left as int,
            ),
        decreases n - widths, narrow - k,
    {
        if k >= narrow {
            match number_at(s, i, 10) {
                None => {
                    return n - i <= 10;
                },
                Some(end) => {
                    if narrow as u64 > (n - end) as u64 {
                        return true;
                    }
                    widths = end;
                    i = end + narrow as usize;
                    k = 0;
                },
            }
        } else {
            let width: u64 = s[widths + k as usize] as u64;
            if width > 64 {
                return true;
            }
            assert(per * width <= 0x10_0000 * 64) by (nonlinear_arith)
                requires
                    per <= 0x10_0000,
                    width <= 64,
            ;
            assert(per * width >= 0) by (nonlinear_arith)
                requires
                    per >= 0,
                    width >= 0,
            ;
            let size: u64 = per as u64 * width / 8;
            if size > (n - i) as u64 {
                return true;
            }
            i = i + size as usize;
            k = k + 1;
            left = left - per as i64;
        }
    }
    true
}

pub fn are_differences_sound(s: &[u8], values: u32) -> (r: bool)
    ensures
        r == differences_sound(s@, values as int),
{
    reveal_with_fuel(room, 6);
    let n: usize = s.len();
    let (block, a): (u64, usize) = match varint_at(s, 0, 5) {
        None => {
            return n < 5;
        },
        Some(x) => x,
    };
    let (narrow, b): (u64, usize) = match varint_at(s, a, 5) {
        None => {
            return n - a < 5;
        },
        Some(x) => x,
    };
    if narrow == 0 {
        return true;
    }
    let (count, c): (u64, usize) = match varint_at(s, b, 5) {
        None => {
            return n - b < 5;
        },
        Some(x) => x,
    };
    let d: usize = match number_at(s, c, 10) {
        None => {
            return n - c <= 10;
        },
        Some(d) => d,
    };
    if block % 128 != 0 || block % narrow != 0 || (block / narrow) % 32 != 0 {
        return true;
    }
    if block == 0 || block > 0x10_0000 {
        return false;
    }
    if count == 0 {
        return values == 0;
    }
    assert(narrow <= block && block / narrow <= block) by (nonlinear_arith)
        requires
            block % narrow == 0,
            0 < block,
            0 < narrow,
    ;
    let left: i64 = if count < values as u64 {
        count as i64 - 1
    } else {
        values as i64 - 1
    };
    are_blocks_sound(s, d, narrow as u32, (block / narrow) as u32, left)
}

/// Whether the values of a page can be read: coded against a dictionary, by
/// differences, or with the bytes of all the values in turn. Others the reader
/// can always read or refuse.
pub open spec fn values_sound(s: Seq<u8>, coding: int, levels: int, values: int) -> bool {
    if coding == 2 || coding == 8 {
        places_sound(s, levels)
    } else if coding == 5 {
        differences_sound(s, values)
    } else {
        coding == 9 ==> 8 * values <= s.len()
    }
}

fn are_values_sound(s: &[u8], coding: i32, levels: u32, values: u32) -> (r: bool)
    ensures
        r == values_sound(s@, coding as int, levels as int, values as int),
{
    if coding == 2 || coding == 8 {
        are_places_sound(s, levels)
    } else if coding == 5 {
        are_differences_sound(s, values)
    } else {
        coding != 9 || 8 * values as u64 <= s.len() as u64
    }
}

/// Whether the body of a page of the first version can be read. Where values may
/// be missing, the levels that say so come first, coded as `kind` says: in runs
/// behind their length, or a bit each.
pub open spec fn first_sound(
    s: Seq<u8>,
    coding: int,
    values: int,
    nullable: bool,
    kind: int,
) -> bool {
    let n = s.len() as int;
    let length = at(s, 0) + 256 * at(s, 1) + 65536 * at(s, 2) + 16777216 * at(s, 3);
    if !nullable {
        values_sound(s, coding, values, values)
    } else if kind == 3 {
        n >= 4 && length < 0x8000_0000 && 4 + length <= n ==> {
            let runs = s.subrange(4, 4 + length);
            &&& levels_sound(runs, 0, values)
            &&& values_sound(s.subrange(4 + length, n), coding, values, present(runs, 0, values))
        }
    } else if kind == 4 {
        let length = (values + 7) / 8;
        0 <= length <= n && values_sound(
            s.subrange(length, n),
            coding,
            values,
            bits_set(s, 0, values as nat),
        )
    } else {
        true
    }
}

pub fn is_first_sound(s: &[u8], coding: i32, values: u32, nullable: bool, kind: i32) -> (r: bool)
    ensures
        r == first_sound(s@, coding as int, values as int, nullable, kind as int),
{
    let n: usize = s.len();
    if !nullable {
        are_values_sound(s, coding, values, values)
    } else if kind == 3 {
        if n < 4 {
            return true;
        }
        let length: u64 = s[0] as u64 + 256 * s[1] as u64 + 65536 * s[2] as u64 + 16777216
            * s[3] as u64;
        if length >= 0x8000_0000 || length > (n - 4) as u64 {
            return true;
        }
        let end: usize = 4 + length as usize;
        let runs = slice_subrange(s, 4, end);
        are_levels_sound(runs, values) && are_values_sound(
            slice_subrange(s, end, n),
            coding,
            values,
            present_at(runs, values),
        )
    } else if kind == 4 {
        let length: u64 = (values as u64 + 7) / 8;
        if length > n as u64 {
            return false;
        }
        are_values_sound(
            slice_subrange(s, length as usize, n),
            coding,
            values,
            bits_set_at(s, 0, values),
        )
    } else {
        true
    }
}

/// Whether the body of a page of the second version can be read: `before` bytes
/// and `levels` bytes of levels, and the values. One that says that more values
/// are missing, `nulls`, than it has is refused by the reader.
pub open spec fn second_sound(
    s: Seq<u8>,
    coding: int,
    values: int,
    nullable: bool,
    nulls: int,
    before: int,
    levels: int,
) -> bool {
    let n = s.len() as int;
    &&& 0 <= before && 0 <= levels && before + levels <= n
    &&& nulls <= values ==> {
        let runs = s.subrange(before, before + levels);
        &&& nullable ==> levels_sound(runs, 0, values)
        &&& values_sound(
            s.subrange(before + levels, n),
            coding,
            values,
            if nullable {
                present(runs, 0, values)
            } else {
                values
            },
        )
    }
}

pub fn is_second_sound(
    s: &[u8],
    coding: i32,
    values: u32,
    nullable: bool,
    nulls: u32,
    before: u32,
    levels: u32,
) -> (r: bool)
    ensures
        r == second_sound(
            s@,
            coding as int,
            values as int,
            nullable,
            nulls as int,
            before as int,
            levels as int,
        ),
{
    let n: usize = s.len();
    let end: u64 = before as u64 + levels as u64;
    if end > n as u64 {
        return false;
    }
    if nulls > values {
        return true;
    }
    let mut there: u32 = values;
    if nullable {
        let runs = slice_subrange(s, before as usize, end as usize);
        if !are_levels_sound(runs, values) {
            return false;
        }
        there = present_at(runs, values);
    }
    are_values_sound(slice_subrange(s, end as usize, n), coding, values, there)
}

/// A number in as few bytes as it needs, seven bits in each, low bits first;
/// every byte but the last has its high bit set.
pub open spec fn varint_bytes(n: nat) -> Seq<u8>
    decreases n,
{
    if n < 128 {
        seq![n as u8]
    } else {
        seq![(128 + n % 128) as u8] + varint_bytes(n / 128)
    }
}

/// A number reads back from the bytes it is written in, wherever they stand and
/// whatever follows, where as many bytes may be read as it takes.
pub proof fn law_a_varint_reads_back(a: Seq<u8>, n: nat, c: Seq<u8>, most: nat)
    requires
        varint_bytes(n).len() <= most,
    ensures
        varint(a + varint_bytes(n) + c, a.len() as int, most) == Some(
            (n as int, (a.len() + varint_bytes(n).len()) as int),
        ),
        varint_bytes(n).len() > 0,
    decreases n,
{
    let s = a + varint_bytes(n) + c;
    let i = a.len() as int;
    if n < 128 {
        assert(s[i] == n as u8);
    } else {
        let first = seq![(128 + n % 128) as u8];
        let rest = varint_bytes(n / 128);
        assert(varint_bytes(n) == first + rest);
        assert(s[i] == (128 + n % 128) as u8);
        assert((a + first) + rest + c =~= s);
        law_a_varint_reads_back(a + first, n / 128, c, (most - 1) as nat);
    }
}

/// Signs alternate: an even number stands for half of it, and an odd one for
/// as far below nought.
pub proof fn law_signs_alternate(a: Seq<u8>, x: int, c: Seq<u8>, n: nat)
    requires
        x >= 0 ==> n == 2 * x,
        x < 0 ==> n == -2 * x - 1,
        n < 0x1_0000_0000,
        varint_bytes(n).len() <= 5,
    ensures
        signed(a + varint_bytes(n) + c, a.len() as int) == Some(
            (x, (a.len() + varint_bytes(n).len()) as int),
        ),
{
    law_a_varint_reads_back(a, n, c, 5);
}

} // verus!
