//! Text in lines and fields.
use crate::text::{
    all_digits, copy_text, digits, is_digit, lemma_digits_read_back, read_whole, whole_spelled,
};
use vstd::prelude::*;

verus! {

/// How far it is to the first `c`; the whole length where there is none.
pub open spec fn reach(s: Seq<char>, c: char) -> int
    decreases s.len(),
{
    if s.len() == 0 || s[0] == c {
        0
    } else {
        1 + reach(s.drop_first(), c)
    }
}

pub proof fn lemma_reach(s: Seq<char>, c: char)
    ensures
        0 <= reach(s, c) <= s.len(),
        forall|i: int| 0 <= i < reach(s, c) ==> #[trigger] s[i] != c,
        reach(s, c) < s.len() ==> s[reach(s, c)] == c,
    decreases s.len(),
{
    if s.len() > 0 && s[0] != c {
        let rest = s.drop_first();
        lemma_reach(rest, c);
        assert forall|i: int| 0 <= i < reach(s, c) implies #[trigger] s[i] != c by {
            if i > 0 {
                assert(rest[i - 1] == s[i]);
            }
        }
    }
}

/// A place found by looking is the reach.
pub proof fn lemma_reach_is(s: Seq<char>, c: char, at: int)
    requires
        0 <= at <= s.len(),
        forall|i: int| 0 <= i < at ==> #[trigger] s[i] != c,
        at < s.len() ==> s[at] == c,
    ensures
        reach(s, c) == at,
{
    lemma_reach(s, c);
    let r = reach(s, c);
    if r < at {
        assert(s[r] != c);
    }
    if at < r {
        assert(s[at] != c);
    }
}

/// Whether a character is not in a text.
pub open spec fn lacks(s: Seq<char>, c: char) -> bool {
    forall|i: int| 0 <= i < s.len() ==> #[trigger] s[i] != c
}

fn seek(s: &Vec<char>, from: usize, to: usize, c: char) -> (r: usize)
    requires
        from <= to <= s@.len(),
    ensures
        from <= r <= to,
        r - from == reach(s@.subrange(from as int, to as int), c),
{
    let ghost part = s@.subrange(from as int, to as int);
    let mut i: usize = from;
    while i < to && s[i] != c
        invariant
            from <= i <= to <= s@.len(),
            part == s@.subrange(from as int, to as int),
            forall|k: int| 0 <= k < i - from ==> #[trigger] part[k] != c,
        decreases to - i,
    {
        assert(part[i - from] == s@[i as int]);
        i += 1;
    }
    proof {
        if i < to {
            assert(part[i - from] == s@[i as int]);
        }
        lemma_reach_is(part, c, i - from);
    }
    i
}

fn piece(s: &Vec<char>, from: usize, to: usize) -> (r: Vec<char>)
    requires
        from <= to <= s@.len(),
    ensures
        r@ == s@.subrange(from as int, to as int),
{
    let mut out: Vec<char> = Vec::new();
    let mut i: usize = from;
    while i < to
        invariant
            from <= i <= to <= s@.len(),
            out@ == s@.subrange(from as int, i as int),
        decreases to - i,
    {
        out.push(s[i]);
        i += 1;
        assert(out@ =~= s@.subrange(from as int, i as int));
    }
    out
}

/// The text as a list of lines of characters.
pub open spec fn views(list: Seq<Vec<char>>) -> Seq<Seq<char>> {
    list.map_values(|v: Vec<char>| v@)
}

/// A line with its carriage return taken off.
pub open spec fn uncarriaged(s: Seq<char>) -> Seq<char> {
    if s.len() > 0 && s.last() == '\r' {
        s.drop_last()
    } else {
        s
    }
}

/// The lines of a text. A line ends in a line feed, or a carriage return and a
/// line feed; the last may end without.
pub open spec fn lines_of(s: Seq<char>) -> Seq<Seq<char>>
    decreases s.len(),
    via lines_shrink
{
    if s.len() == 0 {
        Seq::empty()
    } else {
        let at = reach(s, '\n');
        if at < s.len() {
            seq![uncarriaged(s.subrange(0, at))] + lines_of(s.subrange(at + 1, s.len() as int))
        } else {
            seq![s]
        }
    }
}

#[via_fn]
proof fn lines_shrink(s: Seq<char>) {
    if s.len() > 0 {
        lemma_reach(s, '\n');
    }
}

/// A list of fields parted by a character.
pub open spec fn fields_of(s: Seq<char>, c: char) -> Seq<Seq<char>>
    decreases s.len(),
    via fields_shrink
{
    let at = reach(s, c);
    if at < s.len() {
        seq![s.subrange(0, at)] + fields_of(s.subrange(at + 1, s.len() as int), c)
    } else {
        seq![s]
    }
}

#[via_fn]
proof fn fields_shrink(s: Seq<char>, c: char) {
    lemma_reach(s, c);
}

/// What stands before the first `c`; the whole where there is none.
pub open spec fn head_of(s: Seq<char>, c: char) -> Seq<char> {
    s.subrange(0, reach(s, c))
}

/// What stands behind the first `c`; nothing where there is none.
pub open spec fn tail_of(s: Seq<char>, c: char) -> Seq<char> {
    if reach(s, c) < s.len() {
        s.subrange(reach(s, c) + 1, s.len() as int)
    } else {
        Seq::empty()
    }
}

/// Split a text into lines.
pub fn split_lines(s: &Vec<char>) -> (r: Vec<Vec<char>>)
    ensures
        views(r@) == lines_of(s@),
{
    let n: usize = s.len();
    let mut out: Vec<Vec<char>> = Vec::new();
    let mut from: usize = 0;
    assert(s@.subrange(0, n as int) =~= s@);
    assert(views(out@) + lines_of(s@) =~= lines_of(s@));
    while from < n
        invariant
            from <= n,
            n == s@.len(),
            views(out@) + lines_of(s@.subrange(from as int, n as int)) == lines_of(s@),
        decreases n - from,
    {
        let ghost rest = s@.subrange(from as int, n as int);
        let ghost before = views(out@);
        let at: usize = seek(s, from, n, '\n');
        if at < n {
            let end: usize = if at > from && s[at - 1] == '\r' {
                at - 1
            } else {
                at
            };
            let one = piece(s, from, end);
            proof {
                let cut = rest.subrange(0, at - from);
                assert(cut =~= s@.subrange(from as int, at as int));
                assert(one@ =~= uncarriaged(cut));
                assert(rest.subrange(at - from + 1, rest.len() as int) =~= s@.subrange(
                    at + 1,
                    n as int,
                ));
            }
            out.push(one);
            from = at + 1;
            proof {
                assert(views(out@) =~= before.push(one@));
                assert(views(out@) + lines_of(s@.subrange(from as int, n as int)) =~= before
                    + lines_of(rest));
            }
        } else {
            let one = piece(s, from, n);
            out.push(one);
            from = n;
            proof {
                assert(views(out@) =~= before.push(one@));
                assert(s@.subrange(n as int, n as int) =~= Seq::<char>::empty());
                assert(lines_of(rest) =~= seq![rest]);
                assert(views(out@) + lines_of(Seq::<char>::empty()) =~= before + lines_of(rest));
            }
        }
    }
    assert(s@.subrange(n as int, n as int) =~= Seq::<char>::empty());
    assert(views(out@) + lines_of(Seq::<char>::empty()) =~= views(out@));
    out
}

/// Split a text into fields.
pub fn split_fields(s: &Vec<char>, c: char) -> (r: Vec<Vec<char>>)
    ensures
        views(r@) == fields_of(s@, c),
{
    let n: usize = s.len();
    let mut out: Vec<Vec<char>> = Vec::new();
    let mut from: usize = 0;
    assert(s@.subrange(0, n as int) =~= s@);
    assert(views(out@) + fields_of(s@, c) =~= fields_of(s@, c));
    let mut at: usize = seek(s, 0, n, c);
    while at < n
        invariant
            from <= at <= n,
            n == s@.len(),
            at - from == reach(s@.subrange(from as int, n as int), c),
            views(out@) + fields_of(s@.subrange(from as int, n as int), c) == fields_of(s@, c),
        decreases n - from,
    {
        let ghost rest = s@.subrange(from as int, n as int);
        let ghost before = views(out@);
        let one = piece(s, from, at);
        proof {
            assert(one@ =~= rest.subrange(0, at - from));
            assert(rest.subrange(at - from + 1, rest.len() as int) =~= s@.subrange(
                at + 1,
                n as int,
            ));
        }
        out.push(one);
        from = at + 1;
        proof {
            assert(views(out@) =~= before.push(one@));
            assert(views(out@) + fields_of(s@.subrange(from as int, n as int), c) =~= before
                + fields_of(rest, c));
        }
        at = seek(s, from, n, c);
    }
    let ghost rest = s@.subrange(from as int, n as int);
    let ghost before = views(out@);
    let one = piece(s, from, n);
    out.push(one);
    proof {
        assert(views(out@) =~= before.push(one@));
        assert(fields_of(rest, c) =~= seq![rest]);
        assert(views(out@) =~= before + fields_of(rest, c));
    }
    out
}

/// Split a text at the first `c`.
pub fn split_once(s: &Vec<char>, c: char) -> (r: (Vec<char>, Vec<char>))
    ensures
        r.0@ == head_of(s@, c),
        r.1@ == tail_of(s@, c),
{
    let n: usize = s.len();
    assert(s@.subrange(0, n as int) =~= s@);
    let at: usize = seek(s, 0, n, c);
    let head = piece(s, 0, at);
    if at < n {
        (head, piece(s, at + 1, n))
    } else {
        (head, Vec::new())
    }
}

/// Whether two texts are the same.
pub fn same_chars(a: &Vec<char>, b: &str) -> (r: bool)
    ensures
        r == (a@ == b@),
{
    let other = crate::text::chars_of(b);
    if a.len() != other.len() {
        return false;
    }
    let mut i: usize = 0;
    while i < a.len()
        invariant
            i <= a@.len(),
            a@.len() == other@.len(),
            other@ == b@,
            a@.subrange(0, i as int) == other@.subrange(0, i as int),
        decreases a@.len() - i,
    {
        if a[i] != other[i] {
            return false;
        }
        i += 1;
        assert(a@.subrange(0, i as int) =~= other@.subrange(0, i as int));
    }
    assert(a@ =~= a@.subrange(0, i as int));
    assert(other@ =~= other@.subrange(0, i as int));
    true
}

/// Whether a character is white space.
pub open spec fn is_space(c: char) -> bool {
    let x = c as int;
    9 <= x <= 13 || x == 32 || x == 0x85 || x == 0xA0 || x == 0x1680 || 0x2000 <= x <= 0x200A || x
        == 0x2028 || x == 0x2029 || x == 0x202F || x == 0x205F || x == 0x3000
}

fn is_space_char(c: char) -> (r: bool)
    ensures
        r == is_space(c),
{
    let x: u32 = c as u32;
    (9 <= x && x <= 13) || x == 32 || x == 0x85 || x == 0xA0 || x == 0x1680 || (0x2000 <= x && x
        <= 0x200A) || x == 0x2028 || x == 0x2029 || x == 0x202F || x == 0x205F || x == 0x3000
}

/// A text without the white space at its end.
pub open spec fn trimmed_end(s: Seq<char>) -> Seq<char>
    decreases s.len(),
{
    if s.len() > 0 && is_space(s.last()) {
        trimmed_end(s.drop_last())
    } else {
        s
    }
}

/// A text without the white space at its beginning.
pub open spec fn trimmed_start(s: Seq<char>) -> Seq<char>
    decreases s.len(),
{
    if s.len() > 0 && is_space(s[0]) {
        trimmed_start(s.drop_first())
    } else {
        s
    }
}

/// A text without the white space around it.
pub open spec fn trimmed(s: Seq<char>) -> Seq<char> {
    trimmed_end(trimmed_start(s))
}

/// Take the white space around a text off.
pub fn trim(s: &Vec<char>) -> (r: Vec<char>)
    ensures
        r@ == trimmed(s@),
{
    let n: usize = s.len();
    let mut a: usize = 0;
    assert(s@.subrange(0, n as int) =~= s@);
    while a < n && is_space_char(s[a])
        invariant
            a <= n,
            n == s@.len(),
            trimmed_start(s@) == trimmed_start(s@.subrange(a as int, n as int)),
        decreases n - a,
    {
        proof {
            let now = s@.subrange(a as int, n as int);
            assert(now.drop_first() =~= s@.subrange(a + 1, n as int));
        }
        a += 1;
    }
    let ghost kept = s@.subrange(a as int, n as int);
    assert(trimmed_start(s@) == kept);
    let mut b: usize = n;
    while b > a && is_space_char(s[b - 1])
        invariant
            a <= b <= n,
            n == s@.len(),
            trimmed_end(kept) == trimmed_end(s@.subrange(a as int, b as int)),
        decreases b,
    {
        proof {
            let now = s@.subrange(a as int, b as int);
            assert(now.drop_last() =~= s@.subrange(a as int, b - 1));
            assert(now.last() == s@[b - 1]);
        }
        b -= 1;
    }
    proof {
        let now = s@.subrange(a as int, b as int);
        if b > a {
            assert(now.last() == s@[b - 1]);
        }
    }
    piece(s, a, b)
}

/// A character that a line of fields can hold: the ones that part fields and
/// lines become spaces.
pub open spec fn plain_char(c: char) -> char {
    if c == '\t' || c == '\n' || c == '\r' {
        ' '
    } else {
        c
    }
}

/// A text that a line of fields can hold.
pub open spec fn cleaned(s: Seq<char>) -> Seq<char> {
    s.map_values(|c: char| plain_char(c))
}

/// Append a text that a line of fields can hold.
pub fn put_clean(out: &mut String, text: &str)
    ensures
        final(out)@ == old(out)@ + cleaned(text@),
{
    let ghost start = out@;
    let chars = crate::text::chars_of(text);
    let mut i: usize = 0;
    while i < chars.len()
        invariant
            i <= chars@.len(),
            chars@ == text@,
            out@ == start + cleaned(text@).subrange(0, i as int),
        decreases chars@.len() - i,
    {
        let c: char = chars[i];
        if c == '\t' || c == '\n' || c == '\r' {
            out.push(' ');
        } else {
            out.push(c);
        }
        i += 1;
        assert(out@ =~= start + cleaned(text@).subrange(0, i as int));
    }
    assert(out@ =~= start + cleaned(text@));
}

/// The count a text spells, if it spells one.
pub open spec fn count_spelled(s: Seq<char>) -> Option<usize> {
    match whole_spelled(s) {
        Some(v) => if v <= usize::MAX {
            Some(v as usize)
        } else {
            None
        },
        None => None,
    }
}

/// Read a count.
pub fn read_count(s: &Vec<char>) -> (r: Option<usize>)
    ensures
        r == count_spelled(s@),
{
    match read_whole(s) {
        Some(v) => if v <= usize::MAX as u64 {
            Some(v as usize)
        } else {
            None
        },
        None => None,
    }
}

/// Lines joined into a text, each ended.
pub open spec fn joined(lines: Seq<Seq<char>>) -> Seq<char>
    decreases lines.len(),
{
    if lines.len() == 0 {
        Seq::empty()
    } else {
        joined(lines.drop_last()) + lines.last().push('\n')
    }
}

/// Whether a text can stand as a line.
pub open spec fn is_line(s: Seq<char>) -> bool {
    lacks(s, '\n') && lacks(s, '\r')
}

proof fn lemma_joined_front(l: Seq<char>, rest: Seq<Seq<char>>)
    ensures
        joined(seq![l] + rest) == l.push('\n') + joined(rest),
    decreases rest.len(),
{
    let all = seq![l] + rest;
    if rest.len() == 0 {
        let none = Seq::<Seq<char>>::empty();
        assert(all.drop_last() =~= none);
        assert(rest =~= none);
        assert(joined(none) =~= Seq::<char>::empty());
        assert(all.last() == l);
        assert(joined(all) =~= l.push('\n') + joined(rest));
    } else {
        assert(all.drop_last() =~= seq![l] + rest.drop_last());
        assert(all.last() == rest.last());
        lemma_joined_front(l, rest.drop_last());
        assert(joined(all) =~= l.push('\n') + joined(rest));
    }
}

/// Lines joined into a text are its lines.
pub proof fn law_joined_lines_are_lines(lines: Seq<Seq<char>>)
    requires
        forall|i: int| 0 <= i < lines.len() ==> is_line(#[trigger] lines[i]),
    ensures
        lines_of(joined(lines)) == lines,
    decreases lines.len(),
{
    if lines.len() == 0 {
        assert(lines_of(joined(lines)) =~= lines);
    } else {
        let l = lines[0];
        let rest = lines.drop_first();
        assert(seq![l] + rest =~= lines);
        lemma_joined_front(l, rest);
        assert forall|i: int| 0 <= i < rest.len() implies is_line(#[trigger] rest[i]) by {
            assert(rest[i] == lines[i + 1]);
        }
        law_joined_lines_are_lines(rest);
        let s = l.push('\n') + joined(rest);
        assert(is_line(lines[0]));
        assert forall|i: int| 0 <= i < l.len() implies #[trigger] s[i] != '\n' by {
            assert(s[i] == l[i]);
        }
        lemma_reach_is(s, '\n', l.len() as int);
        assert(s.subrange(0, l.len() as int) =~= l);
        assert(s.subrange((l.len() + 1) as int, s.len() as int) =~= joined(rest));
        if l.len() > 0 {
            assert(l[l.len() - 1] != '\r');
        }
        assert(uncarriaged(l) == l);
        assert(lines_of(s) =~= seq![l] + lines_of(joined(rest)));
    }
}

/// A field and what follows it, parted by `c`, is that field and the fields of
/// what follows.
pub proof fn lemma_field_first(a: Seq<char>, c: char, rest: Seq<char>)
    requires
        lacks(a, c),
    ensures
        fields_of(a.push(c) + rest, c) == seq![a] + fields_of(rest, c),
        head_of(a.push(c) + rest, c) == a,
        tail_of(a.push(c) + rest, c) == rest,
{
    let s = a.push(c) + rest;
    assert forall|i: int| 0 <= i < a.len() implies #[trigger] s[i] != c by {
        assert(s[i] == a[i]);
    }
    lemma_reach_is(s, c, a.len() as int);
    assert(s.subrange(0, a.len() as int) =~= a);
    assert(s.subrange((a.len() + 1) as int, s.len() as int) =~= rest);
}

/// A text without `c` is one field.
pub proof fn lemma_field_last(a: Seq<char>, c: char)
    requires
        lacks(a, c),
    ensures
        fields_of(a, c) == seq![a],
        head_of(a, c) == a,
        tail_of(a, c) == Seq::<char>::empty(),
{
    lemma_reach_is(a, c, a.len() as int);
    assert(a.subrange(0, a.len() as int) =~= a);
    assert(fields_of(a, c) =~= seq![a]);
}

/// A text that was cleaned can stand in a line and in a field.
pub proof fn lemma_cleaned(s: Seq<char>)
    ensures
        is_line(cleaned(s)),
        lacks(cleaned(s), '\t'),
{
}

/// A count written out is read back.
pub proof fn lemma_count_reads_back(n: usize)
    ensures
        count_spelled(digits(n as nat)) == Some(n),
        lacks(digits(n as nat), ' '),
        lacks(digits(n as nat), '\t'),
        is_line(digits(n as nat)),
{
    lemma_digits_read_back(n as nat);
    let d = digits(n as nat);
    assert(all_digits(d));
    assert(d.len() > 0);
    assert(is_digit(d[0]));
    assert(d[0] != '+');
    assert forall|i: int| 0 <= i < d.len() implies d[i] != ' ' && d[i] != '\t' && d[i] != '\n'
        && d[i] != '\r' by {
        assert(is_digit(d[i]));
    }
}

/// Fields parted by a character.
pub open spec fn parted(fields: Seq<Seq<char>>, c: char) -> Seq<char>
    decreases fields.len(),
{
    if fields.len() == 0 {
        Seq::empty()
    } else if fields.len() == 1 {
        fields[0]
    } else {
        fields[0].push(c) + parted(fields.drop_first(), c)
    }
}

/// Texts as sequences of characters.
pub open spec fn texts(list: Seq<String>) -> Seq<Seq<char>> {
    list.map_values(|s: String| s@)
}

pub fn copy_texts(list: &Vec<String>) -> (r: Vec<String>)
    ensures
        texts(r@) == texts(list@),
{
    let mut out: Vec<String> = Vec::new();
    let mut i: usize = 0;
    while i < list.len()
        invariant
            i <= list@.len(),
            texts(out@) == texts(list@).subrange(0, i as int),
        decreases list@.len() - i,
    {
        let ghost had = out@;
        out.push(copy_text(&list[i]));
        i += 1;
        assert(texts(out@) =~= texts(had).push(list@[i - 1]@));
        assert(texts(out@) =~= texts(list@).subrange(0, i as int));
    }
    assert(texts(out@) =~= texts(list@));
    out
}

/// Append fields parted by a character.
pub fn put_parted(out: &mut String, fields: &Vec<String>, c: char)
    ensures
        final(out)@ == old(out)@ + parted(texts(fields@), c),
{
    let ghost start = out@;
    let ghost all = texts(fields@);
    let n: usize = fields.len();
    let mut i: usize = 0;
    assert(all.subrange(0, n as int) =~= all);
    assert(out@ + parted(all, c) =~= start + parted(all, c));
    while i + 1 < n
        invariant
            i <= n,
            n == fields@.len(),
            n == all.len(),
            all == texts(fields@),
            n > 0 ==> i < n,
            out@ + parted(all.subrange(i as int, n as int), c) == start + parted(all, c),
        decreases n - i,
    {
        let ghost before = out@;
        let ghost rest = all.subrange(i as int, n as int);
        crate::text::put(out, fields[i].as_str());
        out.push(c);
        i += 1;
        proof {
            assert(rest.drop_first() =~= all.subrange(i as int, n as int));
            assert(rest[0] == fields@[i - 1]@);
            assert(out@ + parted(all.subrange(i as int, n as int), c) =~= before + parted(rest, c));
        }
    }
    if n > 0 {
        let ghost before = out@;
        let ghost rest = all.subrange(i as int, n as int);
        crate::text::put(out, fields[i].as_str());
        assert(rest.len() == 1 && rest[0] == fields@[i as int]@);
        assert(out@ =~= before + parted(rest, c));
    } else {
        assert(out@ =~= start + parted(all, c));
    }
}

/// Fields parted by a character none of them holds are its fields.
pub proof fn law_parted_fields_are_fields(fields: Seq<Seq<char>>, c: char)
    requires
        fields.len() > 0,
        forall|i: int| 0 <= i < fields.len() ==> lacks(#[trigger] fields[i], c),
    ensures
        fields_of(parted(fields, c), c) == fields,
    decreases fields.len(),
{
    assert(lacks(fields[0], c));
    if fields.len() == 1 {
        lemma_field_last(fields[0], c);
        assert(fields =~= seq![fields[0]]);
    } else {
        let rest = fields.drop_first();
        assert forall|i: int| 0 <= i < rest.len() implies lacks(#[trigger] rest[i], c) by {
            assert(rest[i] == fields[i + 1]);
        }
        law_parted_fields_are_fields(rest, c);
        lemma_field_first(fields[0], c, parted(rest, c));
        assert(seq![fields[0]] + rest =~= fields);
    }
}

/// A text of parted fields lacks what the fields and the parting lack.
pub proof fn lemma_parted_lacks(fields: Seq<Seq<char>>, c: char, x: char)
    requires
        x != c,
        forall|i: int| 0 <= i < fields.len() ==> lacks(#[trigger] fields[i], x),
    ensures
        lacks(parted(fields, c), x),
    decreases fields.len(),
{
    if fields.len() > 0 {
        assert(lacks(fields[0], x));
        if fields.len() > 1 {
            let rest = fields.drop_first();
            assert forall|i: int| 0 <= i < rest.len() implies lacks(#[trigger] rest[i], x) by {
                assert(rest[i] == fields[i + 1]);
            }
            lemma_parted_lacks(rest, c, x);
            let s = parted(fields, c);
            let head = fields[0].push(c);
            assert forall|i: int| 0 <= i < s.len() implies #[trigger] s[i] != x by {
                if i < head.len() {
                    assert(s[i] == head[i]);
                } else {
                    assert(s[i] == parted(rest, c)[i - head.len()]);
                }
            }
        }
    }
}

/// Two texts that lack a character lack it together.
pub proof fn lemma_lacks_join(a: Seq<char>, b: Seq<char>, x: char)
    requires
        lacks(a, x),
        lacks(b, x),
    ensures
        lacks(a + b, x),
{
    let s = a + b;
    assert forall|i: int| 0 <= i < s.len() implies #[trigger] s[i] != x by {
        if i < a.len() {
            assert(s[i] == a[i]);
        } else {
            assert(s[i] == b[i - a.len()]);
        }
    }
}

proof fn lemma_trimmed_end(s: Seq<char>)
    ensures
        trimmed_end(s).len() <= s.len(),
        s.subrange(0, trimmed_end(s).len() as int) == trimmed_end(s),
        trimmed_end(s).len() > 0 ==> !is_space(trimmed_end(s).last()),
        forall|i: int| trimmed_end(s).len() <= i < s.len() ==> is_space(#[trigger] s[i]),
    decreases s.len(),
{
    if s.len() > 0 && is_space(s.last()) {
        let rest = s.drop_last();
        lemma_trimmed_end(rest);
        let n = trimmed_end(s).len() as int;
        assert(s.subrange(0, n) =~= rest.subrange(0, n));
        assert forall|i: int| n <= i < s.len() implies is_space(#[trigger] s[i]) by {
            if i < rest.len() {
                assert(rest[i] == s[i]);
            }
        }
    } else {
        assert(s.subrange(0, s.len() as int) =~= s);
    }
}

proof fn lemma_trimmed_start(s: Seq<char>) -> (at: int)
    ensures
        0 <= at <= s.len(),
        trimmed_start(s) == s.subrange(at, s.len() as int),
        at < s.len() ==> !is_space(s[at]),
        forall|i: int| 0 <= i < at ==> is_space(#[trigger] s[i]),
    decreases s.len(),
{
    if s.len() > 0 && is_space(s[0]) {
        let rest = s.drop_first();
        let k = lemma_trimmed_start(rest);
        assert(rest.subrange(k, rest.len() as int) =~= s.subrange(k + 1, s.len() as int));
        assert forall|i: int| 0 <= i < k + 1 implies is_space(#[trigger] s[i]) by {
            if i > 0 {
                assert(rest[i - 1] == s[i]);
            }
        }
        if k < rest.len() {
            assert(rest[k] == s[k + 1]);
        }
        k + 1
    } else {
        assert(s.subrange(0, s.len() as int) =~= s);
        0
    }
}

/// Trimming takes white space off both ends and nothing else: what is left
/// stands in the text between white space, and neither starts nor ends with
/// any.
pub proof fn law_trimming_takes_white_space_alone(s: Seq<char>)
    ensures
        exists|a: int, b: int|
            0 <= a <= b <= s.len() && trimmed(s) == #[trigger] s.subrange(a, b) && (forall|i: int|
                0 <= i < a || b <= i < s.len() ==> is_space(#[trigger] s[i])),
        trimmed(s).len() > 0 ==> !is_space(trimmed(s)[0]) && !is_space(trimmed(s).last()),
        is_space(' ') && is_space('\t') && is_space('\n') && is_space('\r'),
        forall|c: char| ('!' <= c && c <= '~') ==> !#[trigger] is_space(c),
{
    let at = lemma_trimmed_start(s);
    let t = trimmed_start(s);
    lemma_trimmed_end(t);
    let n = trimmed_end(t).len() as int;
    assert(t.subrange(0, n) =~= s.subrange(at, at + n));
    assert forall|i: int| 0 <= i < at || at + n <= i < s.len() implies is_space(
        #[trigger] s[i],
    ) by {
        if i >= at {
            assert(t[i - at] == s[i]);
        }
    }
    assert(trimmed(s) == s.subrange(at, at + n));
    if n > 0 {
        assert(trimmed(s)[0] == s[at]);
    }
}

/// A cleaned text is as long, holds nothing that parts fields or lines, and is
/// the same where it held none.
pub proof fn law_a_cleaned_text_can_stand_in_a_field(s: Seq<char>)
    ensures
        cleaned(s).len() == s.len(),
        lacks(cleaned(s), '\t'),
        lacks(cleaned(s), '\n'),
        lacks(cleaned(s), '\r'),
        forall|i: int|
            0 <= i < s.len() && s[i] != '\t' && s[i] != '\n' && s[i] != '\r' ==> #[trigger] cleaned(
                s,
            )[i] == s[i],
{
}

} // verus!
