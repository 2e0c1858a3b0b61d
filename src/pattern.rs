//! The textual form of a list of starting cells: `x,y;x,y;...`.
use vstd::prelude::*;

verus! {

/// The pieces of `s` between occurrences of `sep`, in order. There is always
/// at least one piece; consecutive separators give empty pieces.
pub open spec fn split(s: Seq<char>, sep: char) -> Seq<Seq<char>>
    decreases s.len(),
{
    if s.len() == 0 {
        seq![seq![]]
    } else {
        let p = split(s.drop_last(), sep);
        if s.last() == sep {
            p.push(seq![])
        } else {
            p.update(p.len() - 1, p.last().push(s.last()))
        }
    }
}

pub open spec fn is_digit(c: char) -> bool {
    '0' <= c <= '9'
}

/// Whether `d` is a non-empty run of decimal digits.
pub open spec fn is_digits(d: Seq<char>) -> bool {
    d.len() > 0 && forall|i: int| 0 <= i < d.len() ==> is_digit(#[trigger] d[i])
}

/// The number that the decimal digits `d` denote.
pub open spec fn digits_value(d: Seq<char>) -> int
    decreases d.len(),
{
    if d.len() == 0 {
        0
    } else {
        digits_value(d.drop_last()) * 10 + (d.last() as int - '0' as int)
    }
}

/// A decimal byte: digits after an optional `+`, of value at most 255.
pub open spec fn decimal_u8(s: Seq<char>) -> Option<u8> {
    let d = if s.len() > 0 && s[0] == '+' {
        s.drop_first()
    } else {
        s
    };
    if is_digits(d) && digits_value(d) <= 255 {
        Some(digits_value(d) as u8)
    } else {
        None
    }
}

/// A cell position `x,y`: the first two comma-separated pieces, each a
/// decimal byte. Any further pieces are not read.
pub open spec fn position_of(item: Seq<char>) -> Option<[u8; 2]> {
    let parts = split(item, ',');
    if parts.len() >= 2 && decimal_u8(parts[0]) is Some && decimal_u8(parts[1]) is Some {
        Some([decimal_u8(parts[0])->0, decimal_u8(parts[1])->0])
    } else {
        None
    }
}

/// Whether every `;`-separated item of `text` is a cell position.
pub open spec fn all_positions(text: Seq<char>) -> bool {
    forall|k: int|
        0 <= k < split(text, ';').len() ==> #[trigger] position_of(split(text, ';')[k]) is Some
}

proof fn lemma_value_grows(d: Seq<char>, i: int)
    requires
        0 <= i <= d.len(),
        forall|j: int| 0 <= j < d.len() ==> is_digit(#[trigger] d[j]),
    ensures
        digits_value(d) >= digits_value(d.take(i)),
    decreases d.len(),
{
    if i < d.len() {
        let p = d.drop_last();
        assert(p.take(i) =~= d.take(i));
        assert forall|j: int| 0 <= j < p.len() implies is_digit(#[trigger] p[j]) by {
            assert(p[j] == d[j]);
        }
        lemma_value_grows(p, i);
        assert(is_digit(d[d.len() - 1]));
        lemma_value_nonneg(p);
    } else {
        assert(d.take(i) =~= d);
    }
}

proof fn lemma_value_nonneg(d: Seq<char>)
    requires
        forall|j: int| 0 <= j < d.len() ==> is_digit(#[trigger] d[j]),
    ensures
        digits_value(d) >= 0,
    decreases d.len(),
{
    if d.len() > 0 {
        let p = d.drop_last();
        assert forall|j: int| 0 <= j < p.len() implies is_digit(#[trigger] p[j]) by {
            assert(p[j] == d[j]);
        }
        lemma_value_nonneg(p);
        assert(is_digit(d[d.len() - 1]));
    }
}

/// The characters of `text`.
fn chars_of(text: &str) -> (r: Vec<char>)
    ensures
        r@ == text@,
{
    let n = text.unicode_len();
    let mut r: Vec<char> = Vec::new();
    let mut i: usize = 0;
    while i < n
        invariant
            n == text@.len(),
            0 <= i <= n,
            r@ == text@.take(i as int),
        decreases n - i,
    {
        r.push(text.get_char(i));
        assert(r@ =~= text@.take(i + 1));
        i = i + 1;
    }
    assert(r@ =~= text@);
    r
}

/// The pieces of `s` between occurrences of `sep`.
fn split_on(s: &Vec<char>, sep: char) -> (r: Vec<Vec<char>>)
    ensures
        r@.len() == split(s@, sep).len(),
        forall|k: int| 0 <= k < r@.len() ==> (#[trigger] r@[k])@ == split(s@, sep)[k],
{
    let mut pieces: Vec<Vec<char>> = Vec::new();
    let mut current: Vec<char> = Vec::new();
    let mut i: usize = 0;
    while i < s.len()
        invariant
            0 <= i <= s@.len(),
            split(s@.take(i as int), sep).len() == pieces@.len() + 1,
            forall|k: int|
                0 <= k < pieces@.len() ==> (#[trigger] pieces@[k])@ == split(
                    s@.take(i as int),
                    sep,
                )[k],
            current@ == split(s@.take(i as int), sep)[pieces@.len() as int],
        decreases s@.len() - i,
    {
        let c = s[i];
        let ghost t = s@.take(i + 1);
        assert(t.drop_last() =~= s@.take(i as int));
        assert(t.last() == c);
        if c == sep {
            pieces.push(current);
            current = Vec::new();
        } else {
            current.push(c);
        }
        i = i + 1;
    }
    assert(s@.take(s@.len() as int) =~= s@);
    pieces.push(current);
    pieces
}

/// The decimal byte that `s` denotes, if it is one.
fn parse_decimal_u8(s: &Vec<char>) -> (r: Option<u8>)
    ensures
        r == decimal_u8(s@),
{
    let ghost d = if s@.len() > 0 && s@[0] == '+' {
        s@.drop_first()
    } else {
        s@
    };
    assert(decimal_u8(s@) == if is_digits(d) && digits_value(d) <= 255 {
        Some(digits_value(d) as u8)
    } else {
        None
    });
    let mut start: usize = 0;
    if s.len() > 0 && s[0] == '+' {
        start = 1;
    }
    assert(d =~= s@.subrange(start as int, s@.len() as int));
    if start >= s.len() {
        return None;
    }
    let mut value: u32 = 0;
    let mut i: usize = start;
    while i < s.len()
        invariant
            start <= i <= s@.len(),
            d == s@.subrange(start as int, s@.len() as int),
            decimal_u8(s@) == if is_digits(d) && digits_value(d) <= 255 {
                Some(digits_value(d) as u8)
            } else {
                None
            },
            forall|j: int| 0 <= j < i - start ==> is_digit(#[trigger] d[j]),
            value == digits_value(d.take(i - start)),
            value <= 255,
        decreases s@.len() - i,
    {
        let c = s[i];
        assert(d[i - start] == c);
        if !('0' <= c && c <= '9') {
            assert(!is_digit(d[i - start]));
            assert(!is_digits(d));
            return None;
        }
        let ghost t = d.take(i - start + 1);
        assert(t.drop_last() =~= d.take(i - start));
        assert(t.last() == c);
        value = value * 10 + (c as u32 - '0' as u32);
        assert(value == digits_value(t));
        if value > 255 {
            proof {
                if is_digits(d) {
                    lemma_value_grows(d, i - start + 1);
                    assert(digits_value(d) > 255);
                }
                assert(decimal_u8(s@) is None);
            }
            return None;
        }
        i = i + 1;
    }
    assert(d.take(d.len() as int) =~= d);
    Some(value as u8)
}

/// The cell position that `item` denotes, if it is one.
fn parse_position(item: &Vec<char>) -> (r: Option<[u8; 2]>)
    ensures
        r == position_of(item@),
{
    let parts = split_on(item, ',');
    if parts.len() < 2 {
        return None;
    }
    let x = parse_decimal_u8(&parts[0]);
    let y = parse_decimal_u8(&parts[1]);
    match (x, y) {
        (Some(x), Some(y)) => {
            let p: [u8; 2] = [x, y];
            assert(p =~= [decimal_u8(split(item@, ',')[0])->0, decimal_u8(split(item@, ',')[1])->0]);
            Some(p)
        },
        _ => None,
    }
}

/// The starting cells listed in `text` as `x,y` pairs separated by `;`.
/// Returns `None` exactly when some item is not such a pair of decimal bytes;
/// otherwise the positions, in the order listed.
pub fn parse_starting_cells(text: &str) -> (r: Option<Vec<[u8; 2]>>)
    ensures
        r is Some <==> all_positions(text@),
        r matches Some(v) ==> v@.len() == split(text@, ';').len() && forall|k: int|
            0 <= k < v@.len() ==> position_of(split(text@, ';')[k]) == Some(#[trigger] v@[k]),
{
    let chars = chars_of(text);
    let items = split_on(&chars, ';');
    let mut cells: Vec<[u8; 2]> = Vec::new();
    let mut k: usize = 0;
    while k < items.len()
        invariant
            chars@ == text@,
            items@.len() == split(text@, ';').len(),
            forall|j: int| 0 <= j < items@.len() ==> (#[trigger] items@[j])@ == split(text@, ';')[j],
            0 <= k <= items@.len(),
            cells@.len() == k,
            forall|j: int|
                0 <= j < k ==> position_of(split(text@, ';')[j]) == Some(#[trigger] cells@[j]),
        decreases items@.len() - k,
    {
        match parse_position(&items[k]) {
            Some(p) => cells.push(p),
            None => {
                assert(position_of(split(text@, ';')[k as int]) is None);
                return None;
            },
        }
        k = k + 1;
    }
    assert forall|j: int| 0 <= j < split(text@, ';').len() implies #[trigger] position_of(
        split(text@, ';')[j],
    ) is Some by {
        assert(position_of(split(text@, ';')[j]) == Some(cells@[j]));
    }
    Some(cells)
}

} // verus!
