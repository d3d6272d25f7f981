//! Character-level text handling: whitespace trimming, splitting and the
//! integer syntaxes that the file formats use.
use vstd::prelude::*;

verus! {

// ---------------------------------------------------------------------------
// Whitespace and trimming
// ---------------------------------------------------------------------------
/// The Unicode `White_Space` property, the one `char::is_whitespace` and
/// `str::trim` go by.
pub open spec fn is_unicode_whitespace(c: char) -> bool {
    ||| ('\u{9}' <= c && c <= '\u{d}')
    ||| c == ' '
    ||| c == '\u{85}'
    ||| c == '\u{a0}'
    ||| c == '\u{1680}'
    ||| ('\u{2000}' <= c && c <= '\u{200a}')
    ||| c == '\u{2028}'
    ||| c == '\u{2029}'
    ||| c == '\u{202f}'
    ||| c == '\u{205f}'
    ||| c == '\u{3000}'
}

/// `s` without its leading whitespace.
pub open spec fn trim_start(s: Seq<char>) -> Seq<char>
    decreases s.len(),
{
    if s.len() > 0 && is_unicode_whitespace(s[0]) {
        trim_start(s.drop_first())
    } else {
        s
    }
}

/// `s` without its trailing whitespace.
pub open spec fn trim_end(s: Seq<char>) -> Seq<char>
    decreases s.len(),
{
    if s.len() > 0 && is_unicode_whitespace(s.last()) {
        trim_end(s.drop_last())
    } else {
        s
    }
}

/// `s` without leading and trailing whitespace.
pub open spec fn trim(s: Seq<char>) -> Seq<char> {
    trim_end(trim_start(s))
}

/// `s` with every occurrence of `c` removed.
pub open spec fn remove_char(s: Seq<char>, c: char) -> Seq<char>
    decreases s.len(),
{
    if s.len() == 0 {
        s
    } else if s.last() == c {
        remove_char(s.drop_last(), c)
    } else {
        remove_char(s.drop_last(), c).push(s.last())
    }
}

/// The pieces of `s` between the occurrences of `sep`, empty ones included;
/// there is always at least one piece.
pub open spec fn split_on(s: Seq<char>, sep: char) -> Seq<Seq<char>>
    decreases s.len(),
{
    if s.len() == 0 {
        seq![Seq::<char>::empty()]
    } else {
        let init = split_on(s.drop_last(), sep);
        if s.last() == sep {
            init.push(Seq::<char>::empty())
        } else {
            init.update(init.len() - 1, init.last().push(s.last()))
        }
    }
}

proof fn lemma_split_on_nonempty(s: Seq<char>, sep: char)
    ensures
        split_on(s, sep).len() >= 1,
    decreases s.len(),
{
    if s.len() > 0 {
        lemma_split_on_nonempty(s.drop_last(), sep);
    }
}

// ---------------------------------------------------------------------------
// Integer syntax
// ---------------------------------------------------------------------------
/// The value of a digit in the given radix, as `char::to_digit` gives it.
pub open spec fn digit_value(c: char, radix: nat) -> Option<nat> {
    let v: int = if '0' <= c && c <= '9' {
        c as int - '0' as int
    } else if 'a' <= c && c <= 'z' {
        c as int - 'a' as int + 10
    } else if 'A' <= c && c <= 'Z' {
        c as int - 'A' as int + 10
    } else {
        radix as int
    };
    if 0 <= v < radix {
        Some(v as nat)
    } else {
        None
    }
}

/// The number that a sequence of digits writes, most significant first;
/// `None` when one of them is no digit of the radix.
pub open spec fn digits_value(ds: Seq<char>, radix: nat) -> Option<nat>
    decreases ds.len(),
{
    if ds.len() == 0 {
        Some(0)
    } else {
        match (digits_value(ds.drop_last(), radix), digit_value(ds.last(), radix)) {
            (Some(high), Some(low)) => Some(high * radix + low),
            _ => None,
        }
    }
}

/// A non-empty digit sequence whose value does not exceed `limit`.
pub open spec fn bounded_digits_value(ds: Seq<char>, radix: nat, limit: nat) -> Option<nat> {
    if ds.len() == 0 {
        None
    } else {
        match digits_value(ds, radix) {
            Some(v) => if v <= limit {
                Some(v)
            } else {
                None
            },
            None => None,
        }
    }
}

/// The unsigned integer syntax of `u32::from_str_radix`: an optional `+`,
/// then at least one digit, the value at most `u32::MAX`.
pub open spec fn parse_u32_radix(s: Seq<char>, radix: nat) -> Option<u32> {
    if s.len() == 0 {
        None
    } else {
        let ds = if s[0] == '+' {
            s.drop_first()
        } else {
            s
        };
        match bounded_digits_value(ds, radix, u32::MAX as nat) {
            Some(v) => Some(v as u32),
            None => None,
        }
    }
}

/// The signed decimal syntax of `i32::from_str`: an optional `+` or `-`,
/// then at least one digit, the value within the range of `i32`.
pub open spec fn parse_i32_decimal(s: Seq<char>) -> Option<i32> {
    if s.len() == 0 {
        None
    } else if s[0] == '-' {
        match bounded_digits_value(s.drop_first(), 10, 0x8000_0000) {
            Some(v) => Some((-v) as i32),
            None => None,
        }
    } else {
        let ds = if s[0] == '+' {
            s.drop_first()
        } else {
            s
        };
        match bounded_digits_value(ds, 10, i32::MAX as nat) {
            Some(v) => Some(v as i32),
            None => None,
        }
    }
}

/// A valid prefix of a valid digit sequence has a value no larger than the
/// whole.
proof fn lemma_digits_prefix(ds: Seq<char>, radix: nat, i: int)
    requires
        radix >= 1,
        0 <= i <= ds.len(),
        digits_value(ds, radix) is Some,
    ensures
        digits_value(ds.take(i), radix) is Some,
        digits_value(ds.take(i), radix)->0 <= digits_value(ds, radix)->0,
    decreases ds.len(),
{
    if i == ds.len() {
        assert(ds.take(i) =~= ds);
    } else {
        let init = ds.drop_last();
        lemma_digits_prefix(init, radix, i);
        assert(init.take(i) =~= ds.take(i));
        let high = digits_value(init, radix)->0;
        let low = digit_value(ds.last(), radix)->0;
        assert(high <= high * radix + low) by (nonlinear_arith)
            requires
                radix >= 1,
        ;
    }
}

/// Parses the digits `cs[start..]` in the given radix, refusing an empty
/// sequence and a value above `limit`.
fn parse_bounded_digits(cs: &Vec<char>, start: usize, radix: u32, limit: u64) -> (res: Option<u64>)
    requires
        2 <= radix <= 36,
        start <= cs.len(),
        limit <= u32::MAX,
    ensures
        res matches Some(v) ==> bounded_digits_value(cs@.skip(start as int), radix as nat, limit as nat)
            == Some(v as nat),
        res is None ==> bounded_digits_value(cs@.skip(start as int), radix as nat, limit as nat) is None,
{
    let ghost ds = cs@.skip(start as int);
    if start == cs.len() {
        return None;
    }
    let mut acc: u64 = 0;
    let mut i: usize = start;
    while i < cs.len()
        invariant
            2 <= radix <= 36,
            start <= i <= cs.len(),
            limit <= u32::MAX,
            ds == cs@.skip(start as int),
            acc <= limit,
            digits_value(ds.take(i - start), radix as nat) == Some(acc as nat),
        decreases cs.len() - i,
    {
        let c = cs[i];
        let d: u32 = if '0' <= c && c <= '9' {
            (c as u32) - ('0' as u32)
        } else if 'a' <= c && c <= 'z' {
            (c as u32) - ('a' as u32) + 10
        } else if 'A' <= c && c <= 'Z' {
            (c as u32) - ('A' as u32) + 10
        } else {
            radix
        };
        let ghost prefix = ds.take(i + 1 - start);
        assert(prefix.drop_last() =~= ds.take(i - start));
        assert(prefix.last() == c);
        if d >= radix {
            proof {
                assert(digits_value(prefix, radix as nat) is None);
                if digits_value(ds, radix as nat) is Some {
                    lemma_digits_prefix(ds, radix as nat, i + 1 - start);
                }
            }
            return None;
        }
        assert(acc * (radix as u64) <= 0xffff_ffff * 36) by (nonlinear_arith)
            requires
                acc <= 0xffff_ffff,
                radix <= 36,
        ;
        let next: u64 = acc * (radix as u64) + (d as u64);
        if next > limit {
            proof {
                assert(digits_value(prefix, radix as nat) == Some(next as nat));
                if digits_value(ds, radix as nat) is Some {
                    lemma_digits_prefix(ds, radix as nat, i + 1 - start);
                }
            }
            return None;
        }
        acc = next;
        i = i + 1;
    }
    assert(ds.take(i - start) =~= ds);
    Some(acc)
}

/// Parses an unsigned integer in the given radix, with the syntax and range
/// of `u32::from_str_radix`.
pub fn parse_u32(s: &str, radix: u32) -> (res: Option<u32>)
    requires
        2 <= radix <= 36,
    ensures
        res == parse_u32_radix(s@, radix as nat),
{
    let cs = str_chars(s);
    if cs.len() == 0 {
        return None;
    }
    let start: usize = if cs[0] == '+' {
        1
    } else {
        0
    };
    assert(cs@.skip(0) =~= cs@);
    assert(cs@.skip(1) =~= cs@.drop_first());
    match parse_bounded_digits(&cs, start, radix, 0xffff_ffff) {
        Some(v) => Some(v as u32),
        None => None,
    }
}

/// Parses a signed decimal integer with the syntax and range of
/// `i32::from_str`.
pub fn parse_i32(s: &str) -> (res: Option<i32>)
    ensures
        res == parse_i32_decimal(s@),
{
    let cs = str_chars(s);
    if cs.len() == 0 {
        return None;
    }
    assert(cs@.skip(0) =~= cs@);
    assert(cs@.skip(1) =~= cs@.drop_first());
    if cs[0] == '-' {
        match parse_bounded_digits(&cs, 1, 10, 0x8000_0000) {
            Some(v) => Some((0 - (v as i64)) as i32),
            None => None,
        }
    } else {
        let start: usize = if cs[0] == '+' {
            1
        } else {
            0
        };
        match parse_bounded_digits(&cs, start, 10, 0x7fff_ffff) {
            Some(v) => Some(v as i32),
            None => None,
        }
    }
}

// ---------------------------------------------------------------------------
// Strings from characters
// ---------------------------------------------------------------------------
/// `String::push`: appends one character.
#[verifier::external_body]
pub(crate) fn push_char(s: &mut String, c: char)
    ensures
        final(s)@ == old(s)@.push(c),
{
    s.push(c)
}

/// The characters of a string slice, in order.
pub fn str_chars(s: &str) -> (chars: Vec<char>)
    ensures
        chars@ == s@,
{
    let mut chars: Vec<char> = Vec::new();
    for c in it: s.chars()
        invariant
            chars@ == it.history(),
    {
        chars.push(c);
    }
    chars
}

/// A string made of the characters `cs[from..to]`.
pub fn string_from_chars(cs: &Vec<char>, from: usize, to: usize) -> (s: String)
    requires
        from <= to <= cs.len(),
    ensures
        s@ == cs@.subrange(from as int, to as int),
{
    let mut s = String::new();
    let mut i = from;
    while i < to
        invariant
            from <= i <= to <= cs.len(),
            s@ == cs@.subrange(from as int, i as int),
        decreases to - i,
    {
        push_char(&mut s, cs[i]);
        assert(cs@.subrange(from as int, i + 1) =~= cs@.subrange(from as int, i as int).push(
            cs@[i as int],
        ));
        i = i + 1;
    }
    s
}

/// Whether two string slices hold the same characters.
pub fn str_eq(a: &str, b: &str) -> (res: bool)
    ensures
        res == (a@ == b@),
{
    let ca = str_chars(a);
    let cb = str_chars(b);
    if ca.len() != cb.len() {
        assert(a@.len() != b@.len());
        return false;
    }
    let mut i: usize = 0;
    while i < ca.len()
        invariant
            ca.len() == cb.len(),
            ca@ == a@,
            cb@ == b@,
            i <= ca.len(),
            forall|j: int| 0 <= j < i ==> ca@[j] == cb@[j],
        decreases ca.len() - i,
    {
        if ca[i] != cb[i] {
            assert(a@[i as int] != b@[i as int]);
            return false;
        }
        i = i + 1;
    }
    assert(ca@ =~= cb@);
    true
}

/// `str::trim`: the string without leading and trailing Unicode whitespace.
pub fn trim_chars(cs: &Vec<char>) -> (res: (usize, usize))
    ensures
        res.0 <= res.1 <= cs.len(),
        cs@.subrange(res.0 as int, res.1 as int) == trim(cs@),
{
    let mut lo: usize = 0;
    assert(cs@.skip(0) =~= cs@);
    while lo < cs.len() && is_whitespace(cs[lo])
        invariant
            lo <= cs.len(),
            trim_start(cs@) == trim_start(cs@.skip(lo as int)),
        decreases cs.len() - lo,
    {
        assert(cs@.skip(lo as int).drop_first() =~= cs@.skip(lo + 1));
        lo = lo + 1;
    }
    assert(trim_start(cs@.skip(lo as int)) == cs@.skip(lo as int));
    let mut hi: usize = cs.len();
    assert(cs@.skip(lo as int) =~= cs@.subrange(lo as int, hi as int));
    while hi > lo && is_whitespace(cs[hi - 1])
        invariant
            lo <= hi <= cs.len(),
            trim(cs@) == trim_end(cs@.subrange(lo as int, hi as int)),
        decreases hi,
    {
        assert(cs@.subrange(lo as int, hi as int).drop_last() =~= cs@.subrange(
            lo as int,
            hi - 1,
        ));
        hi = hi - 1;
    }
    (lo, hi)
}

/// `char::is_whitespace`.
pub fn is_whitespace(c: char) -> (res: bool)
    ensures
        res == is_unicode_whitespace(c),
{
    ('\u{9}' <= c && c <= '\u{d}') || c == ' ' || c == '\u{85}' || c == '\u{a0}' || c
        == '\u{1680}' || ('\u{2000}' <= c && c <= '\u{200a}') || c == '\u{2028}' || c
        == '\u{2029}' || c == '\u{202f}' || c == '\u{205f}' || c == '\u{3000}'
}

/// Splits a string at every space character, as `str::split(" ")` does;
/// empty pieces are kept.
pub fn split_on_spaces(s: &str) -> (pieces: Vec<String>)
    ensures
        pieces@.len() == split_on(s@, ' ').len(),
        pieces@.len() >= 1,
        forall|i: int| 0 <= i < pieces@.len() ==> #[trigger] pieces@[i]@ == split_on(s@, ' ')[i],
{
    let cs = str_chars(s);
    let mut pieces: Vec<String> = Vec::new();
    let mut start: usize = 0;
    let mut i: usize = 0;
    assert(cs@.take(0) =~= Seq::<char>::empty());
    while i < cs.len()
        invariant
            start <= i <= cs.len(),
            cs@ == s@,
            split_on(cs@.take(i as int), ' ').len() == pieces@.len() + 1,
            forall|j: int|
                0 <= j < pieces@.len() ==> #[trigger] pieces@[j]@ == split_on(
                    cs@.take(i as int),
                    ' ',
                )[j],
            split_on(cs@.take(i as int), ' ').last() == cs@.subrange(start as int, i as int),
        decreases cs.len() - i,
    {
        let ghost before = split_on(cs@.take(i as int), ' ');
        assert(cs@.take(i + 1).drop_last() =~= cs@.take(i as int));
        assert(cs@.take(i + 1).last() == cs@[i as int]);
        if cs[i] == ' ' {
            let piece = string_from_chars(&cs, start, i);
            pieces.push(piece);
            start = i + 1;
            assert(cs@.subrange(start as int, i + 1) =~= Seq::<char>::empty());
        } else {
            assert(cs@.subrange(start as int, i + 1) =~= cs@.subrange(start as int, i as int).push(
                cs@[i as int],
            ));
        }
        i = i + 1;
    }
    proof {
        lemma_split_on_nonempty(s@, ' ');
    }
    let last = string_from_chars(&cs, start, i);
    pieces.push(last);
    assert(cs@.take(i as int) =~= cs@);
    pieces
}

/// Pairs up consecutive items: `(v[0], v[1]), (v[2], v[3]), ...`; an odd
/// last item is left out.
pub fn pair_up<T: Copy>(v: &Vec<T>) -> (pairs: Vec<(T, T)>)
    ensures
        pairs@.len() == v@.len() / 2,
        forall|k: int|
            0 <= k < pairs@.len() ==> #[trigger] pairs@[k] == (v@[2 * k], v@[2 * k + 1]),
{
    let mut pairs: Vec<(T, T)> = Vec::new();
    let mut i: usize = 0;
    while i + 1 < v.len()
        invariant
            i % 2 == 0,
            i <= v.len(),
            pairs@.len() == i / 2,
            forall|k: int|
                0 <= k < pairs@.len() ==> #[trigger] pairs@[k] == (v@[2 * k], v@[2 * k + 1]),
        decreases v.len() - i,
    {
        pairs.push((v[i], v[i + 1]));
        i = i + 2;
    }
    pairs
}

} // verus!
