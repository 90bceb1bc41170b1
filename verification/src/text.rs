//! Text, one character at a time: decimal numbers in and out, and the small
//! searches the parsers are built from.
use vstd::prelude::*;

verus! {

/// The character of a decimal digit.
pub open spec fn digit_char(d: nat) -> char {
    (48 + d) as char
}

/// The value of a decimal digit.
pub open spec fn digit_value(c: char) -> nat {
    (c as int - 48) as nat
}

pub open spec fn is_digit(c: char) -> bool {
    '0' <= c <= '9'
}

pub open spec fn all_digits(s: Seq<char>) -> bool {
    forall|i: int| 0 <= i < s.len() ==> is_digit(#[trigger] s[i])
}

/// The number a run of digits spells.
pub open spec fn digits_value(s: Seq<char>) -> nat
    decreases s.len(),
{
    if s.len() == 0 {
        0
    } else {
        10 * digits_value(s.drop_last()) + digit_value(s.last())
    }
}

/// A number in decimal.
pub open spec fn digits(n: nat) -> Seq<char>
    decreases n,
{
    if n < 10 {
        seq![digit_char(n)]
    } else {
        digits(n / 10).push(digit_char(n % 10))
    }
}

/// A signed number in decimal.
pub open spec fn decimal(x: int) -> Seq<char> {
    if x < 0 {
        seq!['-'] + digits((-x) as nat)
    } else {
        digits(x as nat)
    }
}

/// The leading digits of `s`.
pub open spec fn leading_digits(s: Seq<char>) -> Seq<char>
    decreases s.len(),
{
    if s.len() > 0 && is_digit(s[0]) {
        seq![s[0]] + leading_digits(s.drop_first())
    } else {
        Seq::empty()
    }
}

/// Whether `key` stands in `s` at `i`.
pub open spec fn stands_at(s: Seq<char>, key: Seq<char>, i: int) -> bool {
    0 <= i && i + key.len() <= s.len() && s.subrange(i, i + key.len()) == key
}

/// Whether `i` is the first place `key` stands in `s`.
pub open spec fn first_at(s: Seq<char>, key: Seq<char>, i: int) -> bool {
    stands_at(s, key, i) && forall|j: int| 0 <= j < i ==> !#[trigger] stands_at(s, key, j)
}

/// Whether `key` stands anywhere in `s`.
pub open spec fn found_in(s: Seq<char>, key: Seq<char>) -> bool {
    exists|i: int| #[trigger] stands_at(s, key, i)
}

/// The first place `key` stands in `s`.
pub open spec fn place_of(s: Seq<char>, key: Seq<char>) -> int {
    choose|i: int| first_at(s, key, i)
}

/// What is left of `s` behind its first `n` characters.
pub open spec fn after(s: Seq<char>, n: int) -> Seq<char> {
    s.subrange(n, s.len() as int)
}

/// Appends one character: `String::push`.
pub assume_specification[ String::push ](s: &mut String, c: char)
    ensures
        final(s)@ == old(s)@.push(c),
;

/// What `format!("{:?}")` writes for a string: the string in quotes, with
/// control characters, quotes and backslashes escaped.
pub uninterp spec fn quoted_text(s: Seq<char>) -> Seq<char>;

/// `str`'s `Debug` form. Of the escapes nothing more is said than that they
/// depend on the text alone.
#[verifier::external_body]
pub(crate) fn quoted(s: &str) -> (r: String)
    ensures
        r@ == quoted_text(s@),
{
    format!("{s:?}")
}

/// `core::str::from_utf8`: the bytes as text, or nothing where they are not
/// well-formed UTF-8.
#[verifier::external_body]
pub(crate) fn utf8(bytes: &[u8]) -> (r: Option<&str>)
    ensures
        r is Some <==> vstd::utf8::valid_utf8(bytes@),
        r matches Some(s) ==> s@ == vstd::utf8::decode_utf8(bytes@),
{
    core::str::from_utf8(bytes).ok()
}

/// The characters of a string.
pub fn chars_of(s: &str) -> (r: Vec<char>)
    ensures
        r@ == s@,
{
    let mut out: Vec<char> = Vec::new();
    for c in it: s.chars()
        invariant
            it.seq() == s@,
            out@ == s@.subrange(0, it.index() as int),
    {
        out.push(c);
        assert(out@ =~= s@.subrange(0, it.index() + 1));
    }
    assert(out@ =~= s@);
    out
}

/// The characters of `s` from `a` up to `b`, as text.
pub fn text_of(s: &Vec<char>, a: usize, b: usize) -> (r: String)
    requires
        a <= b <= s@.len(),
    ensures
        r@ == s@.subrange(a as int, b as int),
{
    let mut out = String::new();
    let mut i: usize = a;
    while i < b
        invariant
            a <= i <= b <= s@.len(),
            out@ == s@.subrange(a as int, i as int),
        decreases b - i,
    {
        out.push(s[i]);
        i += 1;
        assert(out@ =~= s@.subrange(a as int, i as int));
    }
    out
}

/// Append a number in decimal.
pub fn put_digits(out: &mut String, n: u64)
    ensures
        final(out)@ == old(out)@ + digits(n as nat),
    decreases n,
{
    let ghost start = out@;
    if n >= 10 {
        put_digits(out, n / 10);
    }
    let d: u8 = (n % 10) as u8;
    let c: char = (48 + d) as char;
    out.push(c);
    proof {
        assert(c == digit_char((n % 10) as nat));
        assert(out@ =~= start + digits(n as nat));
    }
}

/// Append a signed number in decimal.
pub fn put_decimal(out: &mut String, x: i64)
    ensures
        final(out)@ == old(out)@ + decimal(x as int),
{
    let ghost start = out@;
    if x < 0 {
        out.push('-');
        let wide: i128 = -(x as i128);
        put_digits(out, wide as u64);
        assert(out@ =~= start + (seq!['-'] + digits((-x) as nat)));
    } else {
        put_digits(out, x as u64);
    }
}

/// Whether `key` stands in `s` at `i`.
pub fn has_at(s: &Vec<char>, key: &Vec<char>, i: usize) -> (r: bool)
    ensures
        r == stands_at(s@, key@, i as int),
{
    if i > s.len() || key.len() > s.len() - i {
        return false;
    }
    let total: usize = s.len();
    let mut k: usize = 0;
    while k < key.len()
        invariant
            k <= key@.len(),
            i + key@.len() <= total == s@.len(),
            s@.subrange(i as int, i + k) == key@.subrange(0, k as int),
        decreases key@.len() - k,
    {
        if s[i + k] != key[k] {
            proof {
                let whole = s@.subrange(i as int, i + key@.len());
                assert(whole[k as int] == s@[i + k]);
                assert(whole != key@);
            }
            return false;
        }
        k += 1;
        assert(s@.subrange(i as int, i + k) =~= s@.subrange(i as int, i + k - 1).push(
            s@[i + k - 1],
        ));
        assert(key@.subrange(0, k as int) =~= key@.subrange(0, k - 1).push(key@[k - 1]));
    }
    assert(key@.subrange(0, k as int) =~= key@);
    true
}

/// The first place at or behind `from` where `key` stands.
pub fn find(s: &Vec<char>, key: &Vec<char>, from: usize) -> (r: Option<usize>)
    requires
        from <= s@.len(),
    ensures
        match r {
            Some(i) => from <= i && i + key@.len() <= s@.len() && first_at(
                after(s@, from as int),
                key@,
                i - from,
            ),
            None => !found_in(after(s@, from as int), key@),
        },
{
    let ghost rest = after(s@, from as int);
    let total: usize = s.len();
    let mut i: usize = from;
    while i <= total
        invariant
            from <= i <= s@.len() + 1,
            rest == after(s@, from as int),
            from <= total == s@.len(),
            forall|j: int| 0 <= j < i - from ==> !#[trigger] stands_at(rest, key@, j),
        decreases s@.len() + 1 - i,
    {
        let hit = has_at(s, key, i);
        proof {
            lemma_shifted(s@, key@, from as int, i - from);
        }
        if hit {
            return Some(i);
        }
        if i == usize::MAX {
            assert forall|j: int| !#[trigger] stands_at(rest, key@, j) by {}
            return None;
        }
        i += 1;
    }
    assert forall|j: int| !#[trigger] stands_at(rest, key@, j) by {}
    None
}

proof fn lemma_shifted(s: Seq<char>, key: Seq<char>, from: int, j: int)
    requires
        0 <= from <= s.len(),
        0 <= j,
    ensures
        stands_at(after(s, from), key, j) == stands_at(s, key, from + j),
{
    if from + j + key.len() <= s.len() {
        assert(after(s, from).subrange(j, j + key.len()) =~= s.subrange(
            from + j,
            from + j + key.len(),
        ));
    }
}

/// A first place is the first place.
pub proof fn lemma_first_is_place(s: Seq<char>, key: Seq<char>, i: int)
    requires
        first_at(s, key, i),
    ensures
        found_in(s, key),
        place_of(s, key) == i,
{
    let j = place_of(s, key);
    assert(first_at(s, key, j));
    if j < i {
        assert(stands_at(s, key, j));
    }
    if i < j {
        assert(stands_at(s, key, i));
    }
}

/// The end of the run of digits that starts at `a`.
pub fn digits_end(s: &Vec<char>, a: usize) -> (r: usize)
    requires
        a <= s@.len(),
    ensures
        a <= r <= s@.len(),
        leading_digits(after(s@, a as int)) == s@.subrange(a as int, r as int),
        all_digits(s@.subrange(a as int, r as int)),
{
    let mut i: usize = a;
    assert(s@.subrange(a as int, a as int) + leading_digits(after(s@, a as int))
        =~= leading_digits(after(s@, a as int)));
    while i < s.len() && is_digit_char(s[i])
        invariant
            a <= i <= s@.len(),
            all_digits(s@.subrange(a as int, i as int)),
            leading_digits(after(s@, a as int)) == s@.subrange(a as int, i as int)
                + leading_digits(after(s@, i as int)),
        decreases s@.len() - i,
    {
        proof {
            let rest = after(s@, i as int);
            assert(rest.drop_first() =~= after(s@, i + 1));
            assert(s@.subrange(a as int, i + 1) =~= s@.subrange(a as int, i as int).push(
                s@[i as int],
            ));
            assert(s@.subrange(a as int, i as int) + (seq![s@[i as int]] + leading_digits(
                after(s@, i + 1),
            )) =~= s@.subrange(a as int, i + 1) + leading_digits(after(s@, i + 1)));
        }
        i += 1;
    }
    proof {
        assert(leading_digits(after(s@, i as int)) =~= Seq::<char>::empty());
        assert(s@.subrange(a as int, i as int) + Seq::<char>::empty() =~= s@.subrange(
            a as int,
            i as int,
        ));
    }
    i
}

pub fn is_digit_char(c: char) -> (r: bool)
    ensures
        r == is_digit(c),
{
    '0' <= c && c <= '9'
}

/// The value of a digit.
pub fn value_of_digit(c: char) -> (r: u64)
    requires
        is_digit(c),
    ensures
        r == digit_value(c),
        r < 10,
{
    (c as u32 - 48) as u64
}

/// A run of digits as a number, or nothing where it does not fit.
pub fn read_digits(s: &Vec<char>, a: usize, b: usize) -> (r: Option<u64>)
    requires
        a <= b <= s@.len(),
        all_digits(s@.subrange(a as int, b as int)),
    ensures
        r == (if digits_value(s@.subrange(a as int, b as int)) <= u64::MAX {
            Some(digits_value(s@.subrange(a as int, b as int)) as u64)
        } else {
            None
        }),
{
    let ghost all = s@.subrange(a as int, b as int);
    let mut acc: u64 = 0;
    let mut i: usize = a;
    while i < b
        invariant
            a <= i <= b <= s@.len(),
            all == s@.subrange(a as int, b as int),
            all_digits(all),
            acc == digits_value(s@.subrange(a as int, i as int)),
        decreases b - i,
    {
        proof {
            assert(all[i - a] == s@[i as int]);
            let now = s@.subrange(a as int, i + 1);
            assert(now.drop_last() =~= s@.subrange(a as int, i as int));
            assert(now =~= all.subrange(0, i + 1 - a));
            lemma_digits_grow(all, i + 1 - a);
        }
        let d: u64 = value_of_digit(s[i]);
        let next: u128 = acc as u128 * 10 + d as u128;
        if next > u64::MAX as u128 {
            return None;
        }
        acc = next as u64;
        i += 1;
    }
    assert(s@.subrange(a as int, i as int) =~= all);
    Some(acc)
}

/// A longer run of digits spells no smaller a number.
pub proof fn lemma_digits_grow(s: Seq<char>, n: int)
    requires
        0 <= n <= s.len(),
    ensures
        digits_value(s.subrange(0, n)) <= digits_value(s),
    decreases s.len(),
{
    if n == s.len() {
        assert(s.subrange(0, n) =~= s);
    } else {
        lemma_digits_grow(s.drop_last(), n);
        assert(s.drop_last().subrange(0, n) =~= s.subrange(0, n));
    }
}

/// The whole number a text spells, if it spells one: digits, with a plus sign
/// in front if one likes.
pub open spec fn whole_spelled(s: Seq<char>) -> Option<u64> {
    let body = if s.len() > 0 && s[0] == '+' {
        s.drop_first()
    } else {
        s
    };
    if body.len() == 0 || !all_digits(body) || digits_value(body) > u64::MAX {
        None
    } else {
        Some(digits_value(body) as u64)
    }
}

/// Read a whole number.
pub fn read_whole(s: &Vec<char>) -> (r: Option<u64>)
    ensures
        r == whole_spelled(s@),
{
    let n: usize = s.len();
    let from: usize = if n > 0 && s[0] == '+' {
        1
    } else {
        0
    };
    let ghost body = s@.subrange(from as int, n as int);
    proof {
        if from == 1 {
            assert(body =~= s@.drop_first());
        } else {
            assert(body =~= s@);
        }
    }
    if from == n {
        return None;
    }
    let mut i: usize = from;
    while i < n
        invariant
            from <= i <= n,
            n == s@.len(),
            body == s@.subrange(from as int, n as int),
            body == (if s@.len() > 0 && s@[0] == '+' {
                s@.drop_first()
            } else {
                s@
            }),
            forall|k: int| 0 <= k < i - from ==> is_digit(#[trigger] body[k]),
        decreases n - i,
    {
        if !is_digit_char(s[i]) {
            assert(!is_digit(body[i - from]));
            return None;
        }
        assert(body[i - from] == s@[i as int]);
        i += 1;
    }
    read_digits(s, from, n)
}

/// A number written in decimal is digits, and reads back as itself.
pub proof fn lemma_digits_read_back(n: nat)
    ensures
        digits(n).len() > 0,
        all_digits(digits(n)),
        digits_value(digits(n)) == n,
    decreases n,
{
    if n < 10 {
        assert(digits(n).drop_last() =~= Seq::<char>::empty());
        reveal_with_fuel(digits_value, 2);
    } else {
        lemma_digits_read_back(n / 10);
        assert(digits(n).drop_last() =~= digits(n / 10));
    }
}

/// A count of hundredths as a decimal with two places.
pub open spec fn hundredths(n: nat) -> Seq<char> {
    digits(n / 100) + seq!['.', digit_char((n % 100) / 10), digit_char(n % 10)]
}

/// Append a count of hundredths as a decimal with two places.
pub fn put_hundredths(out: &mut String, n: u32)
    ensures
        final(out)@ == old(out)@ + hundredths(n as nat),
{
    let ghost start = out@;
    put_digits(out, (n / 100) as u64);
    out.push('.');
    let tens: u8 = ((n % 100) / 10) as u8;
    let units: u8 = (n % 10) as u8;
    out.push((48 + tens) as char);
    out.push((48 + units) as char);
    assert(out@ =~= start + hundredths(n as nat));
}

/// The nearest multiple of `unit` to `n`, in units; a tie goes to the even
/// one.
pub open spec fn nearest(n: nat, unit: nat) -> nat {
    let q = n / unit;
    let over = 2 * (n % unit);
    if over > unit || (over == unit && q % 2 == 1) {
        q + 1
    } else {
        q
    }
}

/// Append one text to another.
pub fn put(out: &mut String, text: &str)
    ensures
        final(out)@ == old(out)@ + text@,
{
    out.append(text);
}

/// A copy of a text.
pub fn copy_text(text: &String) -> (r: String)
    ensures
        r@ == text@,
{
    text.as_str().to_owned()
}

/// Values of a machine type, once more.
pub fn copy_all<T: Copy>(list: &Vec<T>) -> (r: Vec<T>)
    ensures
        r@ == list@,
{
    let mut out: Vec<T> = Vec::new();
    let mut i: usize = 0;
    while i < list.len()
        invariant
            i <= list@.len(),
            out@ == list@.subrange(0, i as int),
        decreases list@.len() - i,
    {
        out.push(list[i]);
        i += 1;
        assert(out@ =~= list@.subrange(0, i as int));
    }
    assert(out@ =~= list@);
    out
}

/// Whether two texts are the same.
pub fn same(a: &str, b: &str) -> (r: bool)
    ensures
        r == (a@ == b@),
{
    let x = a.to_owned();
    let y = b.to_owned();
    x == y
}

/// The nearest multiple is no further off than half a unit, and of two as near
/// it is the even one.
pub proof fn law_the_nearest_is_within_half_a_unit(n: nat, unit: nat)
    requires
        unit > 0,
    ensures
        -(unit as int) <= 2 * (nearest(n, unit) * unit - n) <= unit,
        2 * (nearest(n, unit) * unit - n) == unit || 2 * (nearest(n, unit) * unit - n) == -(
        unit as int) ==> nearest(n, unit) % 2 == 0,
{
    let q = n / unit;
    let r = n % unit;
    assert(n == q * unit + r && 0 <= r < unit) by (nonlinear_arith)
        requires
            unit > 0,
            q == n / unit,
            r == n % unit,
    ;
    assert((q + 1) * unit == q * unit + unit) by (nonlinear_arith);
}

} // verus!
