//! Text helpers: decimal formatting, byte-wise comparison of strings, and
//! appending to a `String`.
use vstd::prelude::*;
use vstd::utf8::{encode_utf8, encode_utf8_decode_utf8};

verus! {

/// The decimal digit `d` (0 to 9) as a character.
pub open spec fn digit_char(d: int) -> char {
    if d == 0 {
        '0'
    } else if d == 1 {
        '1'
    } else if d == 2 {
        '2'
    } else if d == 3 {
        '3'
    } else if d == 4 {
        '4'
    } else if d == 5 {
        '5'
    } else if d == 6 {
        '6'
    } else if d == 7 {
        '7'
    } else if d == 8 {
        '8'
    } else {
        '9'
    }
}

/// The decimal representation of `n`, without leading zeros.
pub open spec fn decimal_digits(n: nat) -> Seq<char>
    decreases n,
{
    if n < 10 {
        seq![digit_char(n as int)]
    } else {
        decimal_digits(n / 10).push(digit_char((n % 10) as int))
    }
}

/// The decimal representation of `n`, padded on the left with zeros to at
/// least `width` characters (as `{:0width$}` formats an unsigned integer).
pub open spec fn zero_padded(n: nat, width: nat) -> Seq<char> {
    let digits = decimal_digits(n);
    if digits.len() >= width {
        digits
    } else {
        Seq::new((width - digits.len()) as nat, |_i: int| '0') + digits
    }
}

/// The decimal representation of `v` padded with zeros after the sign to at
/// least `width` characters in all (as `{:0width$}` formats a signed integer).
pub open spec fn sign_padded(v: int, width: nat) -> Seq<char> {
    if v < 0 {
        seq!['-'] + zero_padded((-v) as nat, (width - 1) as nat)
    } else {
        zero_padded(v as nat, width)
    }
}

/// Appends `c` to `s` (`String::push`).
#[verifier::external_body]
pub(crate) fn push_char(s: &mut String, c: char)
    ensures
        final(s)@ == old(s)@.push(c),
{
    s.push(c);
}

fn digit(d: u64) -> (c: char)
    requires
        d < 10,
    ensures
        c == digit_char(d as int),
{
    if d == 0 {
        '0'
    } else if d == 1 {
        '1'
    } else if d == 2 {
        '2'
    } else if d == 3 {
        '3'
    } else if d == 4 {
        '4'
    } else if d == 5 {
        '5'
    } else if d == 6 {
        '6'
    } else if d == 7 {
        '7'
    } else if d == 8 {
        '8'
    } else {
        '9'
    }
}

fn digit_count(n: u64) -> (k: usize)
    ensures
        k == decimal_digits(n as nat).len(),
    decreases n,
{
    if n < 10 {
        1
    } else {
        let k = digit_count(n / 10);
        proof {
            lemma_digits_short((n / 10) as nat);
        }
        k + 1
    }
}

/// Ten to the power `k`.
pub open spec fn power_of_ten(k: nat) -> nat
    decreases k,
{
    if k == 0 { 1 } else { 10 * power_of_ten((k - 1) as nat) }
}

proof fn lemma_digits_len(n: nat, k: nat)
    requires
        n < power_of_ten(k),
    ensures
        1 <= decimal_digits(n).len() <= if k == 0 { 1 } else { k },
    decreases n,
{
    if n >= 10 {
        assert(k >= 2) by {
            if k == 0 {
            } else if k == 1 {
                assert(power_of_ten(0) == 1);
            }
        }
        lemma_digits_len(n / 10, (k - 1) as nat);
    }
}

proof fn lemma_digits_short(n: nat)
    requires
        n <= u64::MAX,
    ensures
        1 <= decimal_digits(n).len() <= 20,
{
    reveal_with_fuel(power_of_ten, 21);
    assert(power_of_ten(20) == 100_000_000_000_000_000_000);
    lemma_digits_len(n, 20);
}

fn push_digits(s: &mut String, n: u64)
    ensures
        final(s)@ == old(s)@ + decimal_digits(n as nat),
    decreases n,
{
    if n >= 10 {
        push_digits(s, n / 10);
    }
    push_char(s, digit(n % 10));
    assert(n < 10 ==> decimal_digits(n as nat) == seq![digit_char((n % 10) as int)]);
}

/// The last `width` decimal digits of `n`, zeros included.
pub open spec fn fixed_digits(n: nat, width: nat) -> Seq<char>
    decreases width,
{
    if width == 0 {
        Seq::empty()
    } else {
        fixed_digits(n / 10, (width - 1) as nat).push(digit_char((n % 10) as int))
    }
}

/// The bytes of a text of ASCII characters, one per character.
pub open spec fn ascii_bytes(s: Seq<char>) -> Seq<u8> {
    s.map_values(|c: char| c as u8)
}

/// `fixed_digits` writes exactly `width` digits.
pub proof fn lemma_fixed_len(n: nat, width: nat)
    ensures
        fixed_digits(n, width).len() == width,
    decreases width,
{
    if width > 0 {
        lemma_fixed_len(n / 10, (width - 1) as nat);
    }
}

proof fn lemma_fixed_of_zero(width: nat)
    ensures
        fixed_digits(0, width) =~= Seq::new(width, |_i: int| '0'),
    decreases width,
{
    if width > 0 {
        lemma_fixed_of_zero((width - 1) as nat);
    }
}

proof fn lemma_digits_are_fixed(n: nat)
    ensures
        decimal_digits(n) == fixed_digits(n, decimal_digits(n).len()),
        n < power_of_ten(decimal_digits(n).len()),
    decreases n,
{
    if n < 10 {
        assert(fixed_digits(n, 1) =~= seq![digit_char(n as int)]) by {
            assert(fixed_digits(0, 0) =~= Seq::<char>::empty());
        }
        assert(power_of_ten(1) == 10) by {
            assert(power_of_ten(0) == 1);
        }
    } else {
        lemma_digits_are_fixed(n / 10);
    }
}

proof fn lemma_fixed_padding(n: nat, k: nat, j: nat)
    requires
        n < power_of_ten(k),
    ensures
        fixed_digits(n, k + j) == Seq::new(j, |_i: int| '0') + fixed_digits(n, k),
    decreases k,
{
    if k == 0 {
        lemma_fixed_of_zero(j);
        assert(fixed_digits(n, 0) =~= Seq::<char>::empty());
        assert(Seq::new(j, |_i: int| '0') + fixed_digits(n, 0) =~= Seq::new(j, |_i: int| '0'));
    } else {
        lemma_fixed_padding(n / 10, (k - 1) as nat, j);
        assert((k + j - 1) as nat == (k - 1) as nat + j);
        assert(fixed_digits(n, k + j) =~= Seq::new(j, |_i: int| '0') + fixed_digits(n, k));
    }
}

/// A number below `10^width`, padded with zeros to `width`, is its last
/// `width` digits.
pub proof fn lemma_zero_padded_fixed(n: nat, width: nat)
    requires
        width > 0,
        n < power_of_ten(width),
    ensures
        zero_padded(n, width) == fixed_digits(n, width),
{
    lemma_digits_are_fixed(n);
    let k = decimal_digits(n).len();
    lemma_digits_len(n, width);
    if k < width {
        lemma_fixed_padding(n, k, (width - k) as nat);
        assert(k + (width - k) as nat == width);
    }
}

/// Comparing byte strings that start with parts of one length compares
/// those parts, and the rests where the parts are equal.
pub proof fn lemma_bytes_lt_concat(a1: Seq<u8>, a2: Seq<u8>, b1: Seq<u8>, b2: Seq<u8>)
    requires
        a1.len() == b1.len(),
    ensures
        bytes_lt(a1 + a2, b1 + b2) == if a1 == b1 { bytes_lt(a2, b2) } else { bytes_lt(a1, b1) },
    decreases a1.len(),
{
    if a1.len() == 0 {
        assert(a1 + a2 =~= a2);
        assert(b1 + b2 =~= b2);
        assert(a1 =~= b1);
    } else {
        assert((a1 + a2).drop_first() =~= a1.drop_first() + a2);
        assert((b1 + b2).drop_first() =~= b1.drop_first() + b2);
        lemma_bytes_lt_concat(a1.drop_first(), a2, b1.drop_first(), b2);
        if a1[0] == b1[0] && a1.drop_first() == b1.drop_first() {
            assert(a1 =~= b1) by {
                assert forall|i: int| 0 <= i < a1.len() implies a1[i] == b1[i] by {
                    if i > 0 {
                        assert(a1[i] == a1.drop_first()[i - 1]);
                        assert(b1[i] == b1.drop_first()[i - 1]);
                    }
                }
            }
        }
    }
}

proof fn lemma_digit_byte(d: int)
    requires
        0 <= d <= 9,
    ensures
        digit_char(d) as u8 == 48 + d,
{
}

/// Numbers below `10^width` written in `width` digits compare as text as
/// they compare as numbers, and have equal texts only when equal.
pub proof fn lemma_fixed_digits_order(n1: nat, n2: nat, width: nat)
    requires
        n1 < power_of_ten(width),
        n2 < power_of_ten(width),
    ensures
        bytes_lt(ascii_bytes(fixed_digits(n1, width)), ascii_bytes(fixed_digits(n2, width))) == (n1 < n2),
        (ascii_bytes(fixed_digits(n1, width)) == ascii_bytes(fixed_digits(n2, width))) == (n1 == n2),
    decreases width,
{
    let a = ascii_bytes(fixed_digits(n1, width));
    let b = ascii_bytes(fixed_digits(n2, width));
    if width == 0 {
        assert(a =~= b);
        assert(n1 == 0 && n2 == 0);
    } else {
        let w = (width - 1) as nat;
        lemma_fixed_digits_order(n1 / 10, n2 / 10, w);
        lemma_fixed_len(n1 / 10, w);
        lemma_fixed_len(n2 / 10, w);
        let a1 = ascii_bytes(fixed_digits(n1 / 10, w));
        let b1 = ascii_bytes(fixed_digits(n2 / 10, w));
        let x = digit_char((n1 % 10) as int) as u8;
        let y = digit_char((n2 % 10) as int) as u8;
        assert(a =~= a1 + seq![x]);
        assert(b =~= b1 + seq![y]);
        lemma_bytes_lt_concat(a1, seq![x], b1, seq![y]);
        lemma_digit_byte((n1 % 10) as int);
        lemma_digit_byte((n2 % 10) as int);
        assert(bytes_lt(seq![x], seq![y]) == (x < y)) by {
            assert(seq![x].drop_first() =~= Seq::<u8>::empty());
            assert(seq![y].drop_first() =~= Seq::<u8>::empty());
            assert(!bytes_lt(Seq::<u8>::empty(), Seq::<u8>::empty()));
        }
        if a == b {
            assert(a1 =~= a.take(w as int));
            assert(b1 =~= b.take(w as int));
            assert(a[w as int] == x && b[w as int] == y);
        }
        if a1 == b1 && x == y {
            assert(a =~= b);
        }
    }
}

/// Appends `n` in decimal, padded on the left with zeros to `width`.
pub fn push_zero_padded(s: &mut String, n: u64, width: usize)
    ensures
        final(s)@ == old(s)@ + zero_padded(n as nat, width as nat),
{
    let k = digit_count(n);
    let ghost start = s@;
    if k < width {
        let mut i: usize = k;
        while i < width
            invariant
                k <= i <= width,
                s@ == start + Seq::new((i - k) as nat, |_j: int| '0'),
            decreases width - i,
        {
            push_char(s, '0');
            i = i + 1;
            assert(s@ =~= start + Seq::new((i - k) as nat, |_j: int| '0'));
        }
    }
    let ghost mid = s@;
    push_digits(s, n);
    assert(s@ =~= start + zero_padded(n as nat, width as nat));
}

/// Appends `v` in decimal, padded with zeros after the sign to `width`.
pub fn push_sign_padded(s: &mut String, v: i64, width: usize)
    requires
        1 <= width,
    ensures
        final(s)@ == old(s)@ + sign_padded(v as int, width as nat),
{
    let ghost start = s@;
    if v < 0 {
        push_char(s, '-');
        let magnitude: u64 = if v == i64::MIN { 9_223_372_036_854_775_808u64 } else { (-v) as u64 };
        push_zero_padded(s, magnitude, width - 1);
        assert(s@ =~= start + sign_padded(v as int, width as nat));
    } else {
        push_zero_padded(s, v as u64, width);
    }
}

/// Lexicographic order of byte strings: the order of `&str` and `String` in
/// Rust, which compares the UTF-8 bytes.
pub open spec fn bytes_lt(a: Seq<u8>, b: Seq<u8>) -> bool
    decreases a.len(),
{
    if a.len() == 0 {
        b.len() > 0
    } else if b.len() == 0 {
        false
    } else if a[0] != b[0] {
        a[0] < b[0]
    } else {
        bytes_lt(a.drop_first(), b.drop_first())
    }
}

/// `a < b` for strings with the characters `a` and `b`.
pub open spec fn text_lt(a: Seq<char>, b: Seq<char>) -> bool {
    bytes_lt(encode_utf8(a), encode_utf8(b))
}

/// No byte string is less than itself.
pub proof fn lemma_bytes_lt_irreflexive(a: Seq<u8>)
    ensures
        !bytes_lt(a, a),
    decreases a.len(),
{
    if a.len() > 0 {
        lemma_bytes_lt_irreflexive(a.drop_first());
    }
}

/// The order of byte strings is transitive.
pub proof fn lemma_bytes_lt_transitive(a: Seq<u8>, b: Seq<u8>, c: Seq<u8>)
    requires
        bytes_lt(a, b),
        bytes_lt(b, c),
    ensures
        bytes_lt(a, c),
    decreases a.len(),
{
    if a.len() > 0 && b.len() > 0 && c.len() > 0 && a[0] == b[0] && b[0] == c[0] {
        lemma_bytes_lt_transitive(a.drop_first(), b.drop_first(), c.drop_first());
    }
}

/// Of two distinct byte strings, one is less than the other.
pub proof fn lemma_bytes_lt_total(a: Seq<u8>, b: Seq<u8>)
    ensures
        a == b || bytes_lt(a, b) || bytes_lt(b, a),
    decreases a.len(),
{
    if a.len() > 0 && b.len() > 0 && a[0] == b[0] {
        lemma_bytes_lt_total(a.drop_first(), b.drop_first());
        if a.drop_first() == b.drop_first() {
            assert(a =~= seq![a[0]] + a.drop_first());
            assert(b =~= seq![b[0]] + b.drop_first());
        }
    } else if a.len() == 0 && b.len() == 0 {
        assert(a =~= b);
    }
}

/// The order of strings is a strict total order.
pub proof fn lemma_text_order(a: Seq<char>, b: Seq<char>, c: Seq<char>)
    ensures
        !text_lt(a, a),
        text_lt(a, b) && text_lt(b, c) ==> text_lt(a, c),
        a == b || text_lt(a, b) || text_lt(b, a),
        !(text_lt(a, b) && text_lt(b, a)),
{
    lemma_bytes_lt_irreflexive(encode_utf8(a));
    if text_lt(a, b) && text_lt(b, c) {
        lemma_bytes_lt_transitive(encode_utf8(a), encode_utf8(b), encode_utf8(c));
    }
    if text_lt(a, b) && text_lt(b, a) {
        lemma_bytes_lt_transitive(encode_utf8(a), encode_utf8(b), encode_utf8(a));
    }
    lemma_bytes_lt_total(encode_utf8(a), encode_utf8(b));
    encode_utf8_decode_utf8(a);
    encode_utf8_decode_utf8(b);
}

proof fn lemma_bytes_lt_skip(a: Seq<u8>, b: Seq<u8>, i: int)
    requires
        0 <= i < a.len(),
        i < b.len(),
        a[i] == b[i],
    ensures
        bytes_lt(a.skip(i), b.skip(i)) == bytes_lt(a.skip(i + 1), b.skip(i + 1)),
{
    assert(a.skip(i).drop_first() =~= a.skip(i + 1));
    assert(b.skip(i).drop_first() =~= b.skip(i + 1));
}

/// Whether byte string `a` comes before `b`.
pub fn slice_lt(a: &[u8], b: &[u8]) -> (r: bool)
    ensures
        r == bytes_lt(a@, b@),
{
    let mut i: usize = 0;
    assert(a@.skip(0) =~= a@);
    assert(b@.skip(0) =~= b@);
    while i < a.len() && i < b.len()
        invariant
            i <= a@.len(),
            i <= b@.len(),
            bytes_lt(a@, b@) == bytes_lt(a@.skip(i as int), b@.skip(i as int)),
        decreases a@.len() - i,
    {
        if a[i] != b[i] {
            return a[i] < b[i];
        }
        proof {
            lemma_bytes_lt_skip(a@, b@, i as int);
        }
        i = i + 1;
    }
    i < b.len()
}

/// Whether string `a` comes before `b` (`a < b` on `&str`).
pub fn str_lt(a: &str, b: &str) -> (r: bool)
    ensures
        r == text_lt(a@, b@),
{
    slice_lt(a.as_bytes(), b.as_bytes())
}

/// Whether two byte strings are equal.
pub fn slice_eq(a: &[u8], b: &[u8]) -> (r: bool)
    ensures
        r == (a@ == b@),
{
    if a.len() != b.len() {
        return false;
    }
    let mut i: usize = 0;
    while i < a.len()
        invariant
            i <= a@.len(),
            a@.len() == b@.len(),
            forall|j: int| 0 <= j < i ==> a@[j] == b@[j],
        decreases a@.len() - i,
    {
        if a[i] != b[i] {
            return false;
        }
        i = i + 1;
    }
    assert(a@ =~= b@);
    true
}

/// Whether two strings are equal (`a == b` on `&str`).
pub fn str_eq(a: &str, b: &str) -> (r: bool)
    ensures
        r == (a@ == b@),
{
    let r = slice_eq(a.as_bytes(), b.as_bytes());
    proof {
        encode_utf8_decode_utf8(a@);
        encode_utf8_decode_utf8(b@);
    }
    r
}

/// The characters of `s`.
pub fn chars_of(s: &str) -> (r: Vec<char>)
    ensures
        r@ == s@,
{
    let mut out: Vec<char> = Vec::new();
    for c in it: s.chars()
        invariant
            out@ == it.seq().take(it.index() as int),
    {
        out.push(c);
    }
    out
}

/// The string made of the characters `cs`.
pub fn string_of(cs: &[char]) -> (r: String)
    ensures
        r@ == cs@,
{
    let mut s = String::new();
    let mut i: usize = 0;
    while i < cs.len()
        invariant
            i <= cs@.len(),
            s@ == cs@.take(i as int),
        decreases cs@.len() - i,
    {
        push_char(&mut s, cs[i]);
        i = i + 1;
        assert(s@ =~= cs@.take(i as int));
    }
    assert(cs@.take(cs@.len() as int) =~= cs@);
    s
}

} // verus!
