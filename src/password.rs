use vstd::prelude::*;
use rand::rngs::OsRng;
use rand::seq::SliceRandom;

verus! {

broadcast use vstd::seq_lib::group_to_multiset_ensures;

/// Lowercase ASCII letters.
pub open spec fn is_lower(c: int) -> bool {
    97 <= c && c <= 122
}

/// Uppercase ASCII letters.
pub open spec fn is_upper(c: int) -> bool {
    65 <= c && c <= 90
}

/// Decimal digits.
pub open spec fn is_digit(c: int) -> bool {
    48 <= c && c <= 57
}

/// The symbol class: `,.:;!@#$%^&*()-_=+[]{}`.
pub open spec fn symbol_codes() -> Seq<int> {
    seq![44int, 46, 58, 59, 33, 64, 35, 36, 37, 94, 38, 42, 40, 41, 45, 95, 61, 43, 91, 93, 123, 125]
}

pub open spec fn is_symbol(c: int) -> bool {
    symbol_codes().contains(c)
}

/// A character that a generated password may hold.
pub open spec fn is_password_code(c: int) -> bool {
    is_lower(c) || is_upper(c) || is_digit(c) || is_symbol(c)
}

/// A string of exactly `len` characters from the four classes, with at least
/// one character of each class.
pub open spec fn is_strong_password(s: Seq<char>, len: nat) -> bool {
    &&& s.len() == len
    &&& forall|i: int| 0 <= i < s.len() ==> is_password_code(#[trigger] s[i] as int)
    &&& exists|i: int| 0 <= i < s.len() && is_lower(#[trigger] s[i] as int)
    &&& exists|i: int| 0 <= i < s.len() && is_upper(#[trigger] s[i] as int)
    &&& exists|i: int| 0 <= i < s.len() && is_digit(#[trigger] s[i] as int)
    &&& exists|i: int| 0 <= i < s.len() && is_symbol(#[trigger] s[i] as int)
}

/// Relies on rand's `SliceRandom::choose` with the operating system's random
/// source: `None` exactly for an empty slice, else one of its elements.
#[verifier::external_body]
fn choose_byte(pool: &[u8]) -> (r: Option<u8>)
    ensures
        r is None <==> pool@.len() == 0,
        r matches Some(b) ==> pool@.contains(b),
{
    pool.choose(&mut OsRng).copied()
}

/// Relies on rand's `SliceRandom::shuffle` with the operating system's random
/// source: it only swaps elements, so the result is a permutation.
#[verifier::external_body]
fn shuffle_bytes(v: &mut Vec<u8>)
    ensures
        final(v)@.to_multiset() == old(v)@.to_multiset(),
{
    v.shuffle(&mut OsRng)
}

/// Relies on std's `String::push`: appends one character.
#[verifier::external_body]
fn push_char(s: &mut String, c: char)
    ensures
        final(s)@ == old(s)@.push(c),
{
    s.push(c)
}

fn byte_range(first: u8, last: u8) -> (r: Vec<u8>)
    requires
        first <= last,
    ensures
        r@.len() == last - first + 1,
        forall|i: int| 0 <= i < r@.len() ==> #[trigger] r@[i] == first + i,
{
    let mut r: Vec<u8> = Vec::new();
    let mut b: u8 = first;
    loop
        invariant
            first <= b <= last,
            r@.len() == b - first,
            forall|i: int| 0 <= i < r@.len() ==> #[trigger] r@[i] == first + i,
        decreases last - b,
    {
        r.push(b);
        if b == last {
            return r;
        }
        b = b + 1;
    }
}

fn symbol_pool() -> (r: Vec<u8>)
    ensures
        r@.len() == symbol_codes().len(),
        forall|i: int| 0 <= i < r@.len() ==> #[trigger] r@[i] as int == symbol_codes()[i],
{
    // , . : ; ! @ # $ % ^ & * ( ) - _ = + [ ] { }
    vec![44, 46, 58, 59, 33, 64, 35, 36, 37, 94, 38, 42, 40, 41, 45, 95, 61, 43, 91, 93, 123, 125]
}

/// Draws one byte from a non-empty pool.
fn draw(pool: &Vec<u8>) -> (r: u8)
    requires
        pool@.len() > 0,
    ensures
        pool@.contains(r),
{
    match choose_byte(pool.as_slice()) {
        Some(b) => b,
        None => {
            assert(false);
            0
        },
    }
}

/// Generates a random password of `len` characters: one lowercase letter, one
/// uppercase letter, one digit and one symbol, the rest drawn from all four
/// classes together, and the whole shuffled.
pub fn generate_strong_password(len: usize) -> (r: String)
    requires
        len >= 8,
    ensures
        is_strong_password(r@, len as nat),
{
    let lower = byte_range(97, 122);  // a..=z
    let upper = byte_range(65, 90);  // A..=Z
    let digit = byte_range(48, 57);  // 0..=9
    let symbol = symbol_pool();
    let mut all: Vec<u8> = Vec::new();
    all.extend_from_slice(lower.as_slice());
    all.extend_from_slice(upper.as_slice());
    all.extend_from_slice(digit.as_slice());
    all.extend_from_slice(symbol.as_slice());
    assert forall|i: int| 0 <= i < all@.len() implies is_password_code(#[trigger] all@[i] as int) by {
        if i >= 62 {
            assert(symbol_codes().contains(symbol@[i - 62] as int));
        }
    }

    let mut chars: Vec<u8> = Vec::with_capacity(len);
    let l = draw(&lower);
    let u = draw(&upper);
    let d = draw(&digit);
    let s = draw(&symbol);
    chars.push(l);
    chars.push(u);
    chars.push(d);
    chars.push(s);
    assert(is_symbol(s as int)) by {
        let k = choose|k: int| 0 <= k < symbol@.len() && symbol@[k] == s;
        assert(symbol_codes()[k] == s as int);
    }
    while chars.len() < len
        invariant
            4 <= chars@.len() <= len,
            chars@[0] == l && chars@[1] == u && chars@[2] == d && chars@[3] == s,
            all@.len() > 0,
            is_lower(l as int) && is_upper(u as int) && is_digit(d as int) && is_symbol(s as int),
            forall|i: int| 0 <= i < all@.len() ==> is_password_code(#[trigger] all@[i] as int),
            forall|i: int| 0 <= i < chars@.len() ==> is_password_code(#[trigger] chars@[i] as int),
        decreases len - chars@.len(),
    {
        let c = draw(&all);
        chars.push(c);
    }
    let ghost before = chars@;
    shuffle_bytes(&mut chars);
    assert(chars@.to_multiset().len() == before.to_multiset().len());
    assert forall|b: u8| before.contains(b) implies chars@.contains(b) by {
        assert(before.to_multiset().count(b) > 0);
    }
    assert forall|i: int| 0 <= i < chars@.len() implies is_password_code(#[trigger] chars@[i] as int) by {
        assert(chars@.to_multiset().count(chars@[i]) > 0);
        let k = choose|k: int| 0 <= k < before.len() && before[k] == chars@[i];
    }
    assert(before.contains(l) && before.contains(u) && before.contains(d) && before.contains(s)) by {
        assert(before[0] == l && before[1] == u && before[2] == d && before[3] == s);
    }

    let mut r = String::new();
    let mut i: usize = 0;
    while i < chars.len()
        invariant
            i <= chars@.len(),
            r@.len() == i,
            forall|k: int| 0 <= k < i ==> #[trigger] r@[k] as int == chars@[k] as int,
        decreases chars@.len() - i,
    {
        let c = chars[i] as char;
        push_char(&mut r, c);
        i = i + 1;
    }
    assert(chars@.len() == len);
    assert(chars@.contains(l));
    let ghost il = choose|k: int| 0 <= k < chars@.len() && chars@[k] == l;
    let ghost iu = choose|k: int| 0 <= k < chars@.len() && chars@[k] == u;
    let ghost id = choose|k: int| 0 <= k < chars@.len() && chars@[k] == d;
    let ghost is = choose|k: int| 0 <= k < chars@.len() && chars@[k] == s;
    assert(is_lower(r@[il] as int));
    assert(is_upper(r@[iu] as int));
    assert(is_digit(r@[id] as int));
    assert(is_symbol(r@[is] as int));
    r
}

} // verus!
