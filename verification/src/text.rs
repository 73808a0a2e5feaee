//! The UTF-8 bytes of the texts that get hashed: characters, decimal
//! integers and strings.

use vstd::prelude::*;
use vstd::utf8::*;

verus! {

/// The decimal digit character of a value in `0..10`.
pub open spec fn decimal_digit(d: int) -> char {
    seq!['0', '1', '2', '3', '4', '5', '6', '7', '8', '9'][d]
}

/// The decimal digits of a natural number, most significant first, without
/// leading zeros (zero itself is `"0"`).
pub open spec fn digits(n: nat) -> Seq<char>
    decreases n,
{
    if n < 10 {
        seq![decimal_digit(n as int)]
    } else {
        digits(n / 10).push(decimal_digit((n % 10) as int))
    }
}

/// The text that Rust's `{}` formatting gives an integer.
pub open spec fn decimal(n: int) -> Seq<char> {
    if n < 0 {
        seq!['-'] + digits((-n) as nat)
    } else {
        digits(n as nat)
    }
}

/// UTF-8 encoding distributes over concatenation.
pub proof fn lemma_encode_utf8_concat(a: Seq<char>, b: Seq<char>)
    ensures
        encode_utf8(a + b) == encode_utf8(a) + encode_utf8(b),
    decreases a.len(),
{
    if a.len() == 0 {
        assert(a + b =~= b);
        assert(encode_utf8(a) =~= Seq::<u8>::empty());
        assert(encode_utf8(a) + encode_utf8(b) =~= encode_utf8(b));
    } else {
        lemma_encode_utf8_concat(a.drop_first(), b);
        assert((a + b).drop_first() =~= a.drop_first() + b);
        assert((a + b)[0] == a[0]);
        assert(encode_utf8(a + b) == encode_scalar(a[0] as u32) + encode_utf8(a.drop_first() + b));
        assert(encode_utf8(a) == encode_scalar(a[0] as u32) + encode_utf8(a.drop_first()));
        assert(encode_utf8(a + b) =~= encode_utf8(a) + encode_utf8(b));
    }
}

proof fn lemma_encode_single(c: char)
    ensures
        encode_utf8(seq![c]) == encode_scalar(c as u32),
{
    let s = seq![c];
    assert(s.drop_first() =~= Seq::<char>::empty());
    assert(encode_utf8(s.drop_first()) =~= Seq::<u8>::empty());
    assert(s[0] == c);
    assert(encode_utf8(s) == encode_scalar(s[0] as u32) + encode_utf8(s.drop_first()));
    assert(encode_scalar(c as u32) + Seq::<u8>::empty() =~= encode_scalar(c as u32));
}

/// Appends the UTF-8 encoding of `c` to `buf`.
pub fn push_char(buf: &mut Vec<u8>, c: char)
    ensures
        final(buf)@ == old(buf)@ + encode_utf8(seq![c]),
{
    proof {
        lemma_encode_single(c);
        char_is_scalar(c);
    }
    let scalar = c as u32;
    if scalar <= 0x7F {
        buf.push((scalar & 0x7F) as u8);
        assert(final(buf)@ =~= old(buf)@ + encode_scalar(scalar)) by {
            assert(has_width_1_encoding(scalar));
        }
    } else if scalar <= 0x7FF {
        buf.push(0xC0 | ((scalar >> 6) & 0x1F) as u8);
        buf.push(0x80 | (scalar & 0x3F) as u8);
        assert(final(buf)@ =~= old(buf)@ + encode_scalar(scalar)) by {
            assert(has_width_2_encoding(scalar));
        }
    } else if scalar <= 0xFFFF {
        buf.push(0xE0 | ((scalar >> 12) & 0x0F) as u8);
        buf.push(0x80 | ((scalar >> 6) & 0x3F) as u8);
        buf.push(0x80 | (scalar & 0x3F) as u8);
        assert(final(buf)@ =~= old(buf)@ + encode_scalar(scalar)) by {
            assert(has_width_3_encoding(scalar));
        }
    } else {
        buf.push(0xF0 | ((scalar >> 18) & 0x7) as u8);
        buf.push(0x80 | ((scalar >> 12) & 0x3F) as u8);
        buf.push(0x80 | ((scalar >> 6) & 0x3F) as u8);
        buf.push(0x80 | (scalar & 0x3F) as u8);
        assert(final(buf)@ =~= old(buf)@ + encode_scalar(scalar)) by {
            assert(has_width_4_encoding(scalar));
        }
    }
}

fn digit_char(d: u32) -> (c: char)
    requires
        d < 10,
    ensures
        c == decimal_digit(d as int),
{
    if d == 0 {
        '0'
    } else if d == 1 {
        '1'
    } else if d == 2 {
        '2'
    } else if d == 3 {
        '3'
    } else if d == 4 {
        '4'
    } else if d == 5 {
        '5'
    } else if d == 6 {
        '6'
    } else if d == 7 {
        '7'
    } else if d == 8 {
        '8'
    } else {
        '9'
    }
}

fn push_digits(buf: &mut Vec<u8>, n: u32)
    ensures
        final(buf)@ == old(buf)@ + encode_utf8(digits(n as nat)),
    decreases n,
{
    if n >= 10 {
        push_digits(buf, n / 10);
        let c = digit_char(n % 10);
        push_char(buf, c);
        proof {
            let ghost d = digits((n / 10) as nat);
            assert(digits(n as nat) == d.push(c));
            assert(d.push(c) =~= d + seq![c]);
            lemma_encode_utf8_concat(d, seq![c]);
        }
    } else {
        let c = digit_char(n);
        push_char(buf, c);
    }
}

/// Appends the UTF-8 encoding of the decimal text of `n` to `buf`.
pub fn push_decimal(buf: &mut Vec<u8>, n: i32)
    ensures
        final(buf)@ == old(buf)@ + encode_utf8(decimal(n as int)),
{
    if n < 0 {
        push_char(buf, '-');
        let magnitude: i64 = -(n as i64);
        push_digits(buf, magnitude as u32);
        proof {
            lemma_encode_utf8_concat(seq!['-'], digits((-n) as nat));
        }
    } else {
        push_digits(buf, n as u32);
    }
}

/// Appends the UTF-8 encoding of `s` to `buf`.
pub fn push_str(buf: &mut Vec<u8>, s: &str)
    ensures
        final(buf)@ == old(buf)@ + encode_utf8(s@),
{
    let bytes = s.as_bytes();
    let n = bytes.len();
    let mut i: usize = 0;
    while i < n
        invariant
            n == bytes@.len(),
            bytes@ == encode_utf8(s@),
            i <= n,
            buf@ == old(buf)@ + bytes@.take(i as int),
        decreases n - i,
    {
        buf.push(bytes[i]);
        i = i + 1;
        assert(bytes@.take(i as int) =~= bytes@.take(i - 1).push(bytes@[i - 1]));
    }
    assert(bytes@.take(n as int) =~= bytes@);
}

fn push_digit_chars(out: &mut Vec<char>, n: u32)
    ensures
        final(out)@ == old(out)@ + digits(n as nat),
    decreases n,
{
    if n >= 10 {
        push_digit_chars(out, n / 10);
        let c = digit_char(n % 10);
        out.push(c);
        assert(digits(n as nat) == digits((n / 10) as nat).push(c));
    } else {
        let c = digit_char(n);
        out.push(c);
        assert(digits(n as nat) =~= seq![c]);
    }
}

/// Appends the decimal text of `n`.
pub fn push_decimal_chars(out: &mut Vec<char>, n: i32)
    ensures
        final(out)@ == old(out)@ + decimal(n as int),
{
    if n < 0 {
        out.push('-');
        let magnitude: i64 = -(n as i64);
        push_digit_chars(out, magnitude as u32);
    } else {
        push_digit_chars(out, n as u32);
    }
}

/// Appends the characters of `s`.
pub fn push_chars(out: &mut Vec<char>, s: &Vec<char>)
    ensures
        final(out)@ == old(out)@ + s@,
{
    let n = s.len();
    let mut i: usize = 0;
    while i < n
        invariant
            n == s@.len(),
            i <= n,
            out@ == old(out)@ + s@.take(i as int),
        decreases n - i,
    {
        out.push(s[i]);
        i = i + 1;
        assert(s@.take(i as int) =~= s@.take(i - 1).push(s@[i - 1]));
    }
    assert(s@.take(n as int) =~= s@);
}

/// The texts one after the other, `sep` between each two.
pub open spec fn join(parts: Seq<Seq<char>>, sep: Seq<char>) -> Seq<char>
    decreases parts.len(),
{
    if parts.len() == 0 {
        Seq::empty()
    } else if parts.len() == 1 {
        parts[0]
    } else {
        join(parts.drop_last(), sep) + sep + parts.last()
    }
}

/// Appends the texts of `parts`, `sep` between each two.
pub fn push_joined(out: &mut Vec<char>, parts: &Vec<Vec<char>>, sep: &Vec<char>)
    ensures
        final(out)@ == old(out)@ + join(crate::input::texts(parts@), sep@),
{
    let ghost all = crate::input::texts(parts@);
    let n = parts.len();
    let mut i: usize = 0;
    assert(all.take(0) =~= Seq::<Seq<char>>::empty());
    assert(old(out)@ + join(all.take(0), sep@) =~= old(out)@);
    while i < n
        invariant
            n == parts@.len(),
            all == crate::input::texts(parts@),
            i <= n,
            out@ == old(out)@ + join(all.take(i as int), sep@),
        decreases n - i,
    {
        let ghost before = out@;
        if i > 0 {
            push_chars(out, sep);
        }
        push_chars(out, &parts[i]);
        proof {
            let t = all.take(i + 1);
            assert(t.drop_last() =~= all.take(i as int));
            assert(t.last() == parts@[i as int]@);
            if i == 0 {
                assert(t.len() == 1);
                assert(join(t, sep@) == t[0]);
                assert(join(all.take(0), sep@) =~= Seq::<char>::empty());
            }
        }
        i = i + 1;
        assert(out@ =~= old(out)@ + join(all.take(i as int), sep@));
    }
    assert(all.take(n as int) =~= all);
}

/// The characters of a string literal or other text.
pub fn text_of(s: &str) -> (res: Vec<char>)
    ensures
        res@ == s@,
{
    crate::input::chars_of(s)
}

} // verus!
