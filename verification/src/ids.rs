//! Document identifiers: opaque, stable, fixed-length tokens.
//!
//! A `DocId` wraps the 64-bit content address of the document's bundle. Its
//! external representation is exactly 16 lowercase hexadecimal digits;
//! `parse` validates that grammar and `to_text` is its lossless inverse.

use vstd::prelude::*;
use crate::errors::RepoError;

verus! {

/// Opaque, stable identifier of one document, unique for the document's
/// entire lifetime.
#[derive(Clone, Copy, Debug, PartialEq, Eq, Structural)]
pub struct DocId {
    pub value: u64,
}

/// The numeric value of one lowercase hexadecimal digit character, or 16 if
/// the character is not such a digit.
pub open spec fn hex_digit_value(c: char) -> int {
    if '0' <= c && c <= '9' {
        c as int - '0' as int
    } else if 'a' <= c && c <= 'f' {
        c as int - 'a' as int + 10
    } else {
        16
    }
}

/// Whether `c` is a lowercase hexadecimal digit.
pub open spec fn is_hex_digit(c: char) -> bool {
    hex_digit_value(c) < 16
}

/// The lowercase hexadecimal digit character for a value below 16.
pub open spec fn hex_char_of(d: int) -> char {
    if d == 0 { '0' } else if d == 1 { '1' } else if d == 2 { '2' } else if d == 3 { '3' }
    else if d == 4 { '4' } else if d == 5 { '5' } else if d == 6 { '6' } else if d == 7 { '7' }
    else if d == 8 { '8' } else if d == 9 { '9' } else if d == 10 { 'a' } else if d == 11 { 'b' }
    else if d == 12 { 'c' } else if d == 13 { 'd' } else if d == 14 { 'e' } else { 'f' }
}

/// Whether `s` matches the identifier grammar: exactly 16 lowercase
/// hexadecimal digits.
pub open spec fn is_valid_id_text(s: Seq<char>) -> bool {
    s.len() == 16 && forall|i: int| 0 <= i < s.len() ==> is_hex_digit(#[trigger] s[i])
}

/// The value encoded by a sequence of hexadecimal digits, most significant
/// digit first.
pub open spec fn decode_hex(s: Seq<char>) -> int
    decreases s.len(),
{
    if s.len() == 0 {
        0
    } else {
        decode_hex(s.drop_last()) * 16 + hex_digit_value(s.last())
    }
}

/// The `n`-digit hexadecimal rendering of `v`, most significant digit first.
pub open spec fn render_hex(v: int, n: nat) -> Seq<char>
    decreases n,
{
    if n == 0 {
        Seq::empty()
    } else {
        render_hex(v / 16, (n - 1) as nat).push(hex_char_of(v % 16))
    }
}

/// The external text of an identifier value: 16 lowercase hex digits.
pub open spec fn id_text_of(v: u64) -> Seq<char> {
    render_hex(v as int, 16)
}

/// Rendering then decoding gives the value back: `decode_hex` is a left
/// inverse of `render_hex` for values that fit in `n` digits.
pub proof fn lemma_decode_render(v: int, n: nat)
    requires
        0 <= v < pow16(n),
    ensures
        decode_hex(render_hex(v, n)) == v,
        render_hex(v, n).len() == n,
        forall|i: int| 0 <= i < n ==> is_hex_digit(#[trigger] render_hex(v, n)[i]),
    decreases n,
{
    if n == 0 {
    } else {
        let d = v % 16;
        let rest = v / 16;
        assert(0 <= d < 16);
        assert(0 <= rest < pow16((n - 1) as nat)) by {
            assert(pow16(n) == pow16((n - 1) as nat) * 16);
            assert(v / 16 < pow16((n - 1) as nat)) by (nonlinear_arith)
                requires v < pow16((n - 1) as nat) * 16 && 0 <= v,
            ;
        }
        lemma_decode_render(rest, (n - 1) as nat);
        let s = render_hex(v, n);
        assert(s.drop_last() =~= render_hex(rest, (n - 1) as nat));
        assert(hex_digit_value(hex_char_of(d)) == d);
        assert(decode_hex(s) == rest * 16 + d);
        assert(rest * 16 + d == v) by (nonlinear_arith)
            requires rest == v / 16 && d == v % 16,
        ;
    }
}

/// Decoding then rendering gives the text back: valid identifier text is
/// uniquely determined by its value.
pub proof fn lemma_render_decode(s: Seq<char>, n: nat)
    requires
        s.len() == n,
        forall|i: int| 0 <= i < s.len() ==> is_hex_digit(#[trigger] s[i]),
    ensures
        0 <= decode_hex(s) < pow16(n),
        render_hex(decode_hex(s), n) == s,
    decreases n,
{
    if n == 0 {
        assert(render_hex(0, 0) =~= s);
    } else {
        let prefix = s.drop_last();
        lemma_render_decode(prefix, (n - 1) as nat);
        let v = decode_hex(s);
        let p = decode_hex(prefix);
        let d = hex_digit_value(s.last());
        assert(0 <= d < 16);
        assert(v == p * 16 + d);
        assert(pow16(n) == pow16((n - 1) as nat) * 16);
        assert(0 <= p * 16 + d < pow16((n - 1) as nat) * 16) by (nonlinear_arith)
            requires 0 <= p < pow16((n - 1) as nat) && 0 <= d < 16,
        ;
        assert(v / 16 == p && v % 16 == d) by (nonlinear_arith)
            requires v == p * 16 + d && 0 <= d < 16 && 0 <= p,
        ;
        assert(hex_char_of(d) == s.last()) by {
            let c = s.last();
            assert(is_hex_digit(c));
            if '0' <= c && c <= '9' {
                assert(hex_char_of(d) as int == c as int);
            } else {
                assert(hex_char_of(d) as int == c as int);
            }
        }
        assert(render_hex(v, n) =~= s);
    }
}

/// 16 raised to the power `n`.
pub open spec fn pow16(n: nat) -> int
    decreases n,
{
    if n == 0 { 1 } else { 16 * pow16((n - 1) as nat) }
}

/// `pow16(16)` covers exactly the 64-bit range.
pub proof fn lemma_pow16_16()
    ensures
        pow16(16) == 0x1_0000_0000_0000_0000,
{
    assert(pow16(0) == 1);
    assert(pow16(1) == 16);
    assert(pow16(2) == 0x100);
    assert(pow16(3) == 0x1000);
    assert(pow16(4) == 0x1_0000);
    assert(pow16(5) == 0x10_0000);
    assert(pow16(6) == 0x100_0000);
    assert(pow16(7) == 0x1000_0000);
    assert(pow16(8) == 0x1_0000_0000);
    assert(pow16(9) == 0x10_0000_0000);
    assert(pow16(10) == 0x100_0000_0000);
    assert(pow16(11) == 0x1000_0000_0000);
    assert(pow16(12) == 0x1_0000_0000_0000);
    assert(pow16(13) == 0x10_0000_0000_0000);
    assert(pow16(14) == 0x100_0000_0000_0000);
    assert(pow16(15) == 0x1000_0000_0000_0000);
    assert(pow16(16) == 0x1_0000_0000_0000_0000);
}

impl DocId {
    /// Parses an identifier from its external text. Fails with
    /// `InvalidIdentifier` exactly when the text is not 16 lowercase
    /// hexadecimal digits.
    pub fn parse(s: &str) -> (r: Result<DocId, RepoError>)
        ensures
            match r {
                Ok(id) => is_valid_id_text(s@) && id.value as int == decode_hex(s@),
                Err(e) => e == RepoError::InvalidIdentifier && !is_valid_id_text(s@),
            },
    {
        let n = s.unicode_len();
        if n != 16 {
            return Err(RepoError::InvalidIdentifier);
        }
        let mut value: u64 = 0;
        let mut i: usize = 0;
        while i < 16
            invariant
                0 <= i <= 16,
                s@.len() == 16,
                forall|j: int| 0 <= j < i ==> is_hex_digit(#[trigger] s@[j]),
                value as int == decode_hex(s@.subrange(0, i as int)),
                (value as int) < pow16(i as nat),
            decreases 16 - i,
        {
            let c = s.get_char(i);
            let d: u64 = if '0' <= c && c <= '9' {
                (c as u64) - ('0' as u64)
            } else if 'a' <= c && c <= 'f' {
                (c as u64) - ('a' as u64) + 10
            } else {
                return Err(RepoError::InvalidIdentifier);
            };
            proof {
                assert(d as int == hex_digit_value(s@[i as int]));
                assert(is_hex_digit(s@[i as int]));
                assert(pow16((i + 1) as nat) == pow16(i as nat) * 16);
                lemma_pow16_16();
                assert(pow16(i as nat) <= pow16(16)) by {
                    lemma_pow16_monotone(i as nat, 16);
                }
                assert(value as int * 16 + d < pow16(i as nat) * 16) by (nonlinear_arith)
                    requires (value as int) < pow16(i as nat) && d < 16 && 0 <= value as int,
                ;
                assert(pow16(i as nat) * 16 <= pow16(16)) by {
                    lemma_pow16_monotone((i + 1) as nat, 16);
                }
                assert(s@.subrange(0, i as int + 1).drop_last() =~= s@.subrange(0, i as int));
                assert(s@.subrange(0, i as int + 1).last() == s@[i as int]);
            }
            value = value * 16 + d;
            i = i + 1;
        }
        proof {
            assert(s@.subrange(0, 16) =~= s@);
        }
        Ok(DocId { value })
    }

    /// Renders the identifier as its external text: exactly 16 lowercase
    /// hexadecimal digits, the lossless inverse of `parse`.
    pub fn to_text(&self) -> (r: String)
        ensures
            r@ == id_text_of(self.value),
            is_valid_id_text(r@),
            decode_hex(r@) == self.value as int,
    {
        let mut digits: Vec<u8> = Vec::new();
        let mut rem: u64 = self.value;
        let mut k: usize = 0;
        proof {
            assert(self.value as int / pow16(0) == self.value as int);
        }
        while k < 16
            invariant
                0 <= k <= 16,
                digits@.len() == k,
                rem as int == self.value as int / pow16(k as nat),
                forall|j: int| 0 <= j < k ==> digits@[j] as int
                    == (self.value as int / pow16(j as nat)) % 16,
            decreases 16 - k,
        {
            let d = (rem % 16) as u8;
            digits.push(d);
            proof {
                assert((rem / 16) as int == self.value as int / pow16((k + 1) as nat)) by {
                    assert(pow16((k + 1) as nat) == pow16(k as nat) * 16);
                    lemma_pow16_pos(k as nat);
                    lemma_div_twice(self.value as int, pow16(k as nat), 16);
                }
            }
            rem = rem / 16;
            k = k + 1;
        }
        let mut text = String::new();
        let mut k2: usize = 0;
        proof {
            lemma_render_index(self.value as int, 16);
        }
        while k2 < 16
            invariant
                0 <= k2 <= 16,
                digits@.len() == 16,
                id_text_of(self.value).len() == 16,
                forall|j: int| 0 <= j < 16 ==> digits@[j] as int
                    == (self.value as int / pow16(j as nat)) % 16,
                forall|j: int| 0 <= j < 16 ==> #[trigger] id_text_of(self.value)[j]
                    == hex_char_of((self.value as int / pow16((15 - j) as nat)) % 16),
                text@ =~= id_text_of(self.value).subrange(0, k2 as int),
            decreases 16 - k2,
        {
            let d = digits[15 - k2];
            let piece: &str = match d {
                0 => "0", 1 => "1", 2 => "2", 3 => "3", 4 => "4", 5 => "5", 6 => "6", 7 => "7",
                8 => "8", 9 => "9", 10 => "a", 11 => "b", 12 => "c", 13 => "d", 14 => "e",
                _ => "f",
            };
            proof {
                reveal_strlit("0"); reveal_strlit("1"); reveal_strlit("2"); reveal_strlit("3");
                reveal_strlit("4"); reveal_strlit("5"); reveal_strlit("6"); reveal_strlit("7");
                reveal_strlit("8"); reveal_strlit("9"); reveal_strlit("a"); reveal_strlit("b");
                reveal_strlit("c"); reveal_strlit("d"); reveal_strlit("e"); reveal_strlit("f");
                assert(d < 16) by {
                    assert(digits@[15 - k2 as int] as int
                        == (self.value as int / pow16((15 - k2 as int) as nat)) % 16);
                }
                assert(piece@ =~= seq![hex_char_of(d as int)]);
                assert(id_text_of(self.value)[k2 as int] == hex_char_of(d as int));
                assert(id_text_of(self.value).subrange(0, k2 as int + 1)
                    =~= id_text_of(self.value).subrange(0, k2 as int).push(
                        id_text_of(self.value)[k2 as int]));
            }
            text.append(piece);
            k2 = k2 + 1;
        }
        proof {
            lemma_pow16_16();
            lemma_decode_render(self.value as int, 16);
            assert(text@ =~= id_text_of(self.value));
        }
        text
    }
}

/// `pow16` is monotone in the exponent.
pub proof fn lemma_pow16_monotone(a: nat, b: nat)
    requires
        a <= b,
    ensures
        pow16(a) <= pow16(b),
        pow16(a) >= 1,
    decreases b,
{
    if a == b {
        lemma_pow16_pos(a);
    } else {
        lemma_pow16_monotone(a, (b - 1) as nat);
    }
}

/// `pow16` is positive.
pub proof fn lemma_pow16_pos(n: nat)
    ensures
        pow16(n) >= 1,
    decreases n,
{
    if n > 0 {
        lemma_pow16_pos((n - 1) as nat);
    }
}

/// Dividing by `a` and then by `b` divides by `a * b`.
proof fn lemma_div_twice(x: int, a: int, b: int)
    requires
        x >= 0,
        a >= 1,
        b >= 1,
    ensures
        (x / a) / b == x / (a * b),
{
    vstd::arithmetic::div_mod::lemma_div_denominator(x, a, b);
}

/// The digit of `render_hex(v, n)` at position `j` is the digit of `v` at
/// weight `pow16(n - 1 - j)`.
pub proof fn lemma_render_index(v: int, n: nat)
    requires
        v >= 0,
    ensures
        render_hex(v, n).len() == n,
        forall|j: int| 0 <= j < n ==> #[trigger] render_hex(v, n)[j]
            == hex_char_of((v / pow16((n - 1 - j) as nat)) % 16),
    decreases n,
{
    if n > 0 {
        lemma_render_index(v / 16, (n - 1) as nat);
        let s = render_hex(v, n);
        assert forall|j: int| 0 <= j < n implies #[trigger] s[j]
            == hex_char_of((v / pow16((n - 1 - j) as nat)) % 16) by {
            if j == n - 1 {
                assert(pow16(0) == 1);
                assert(v / 1 == v);
            } else {
                assert(s[j] == render_hex(v / 16, (n - 1) as nat)[j]);
                assert((v / 16) / pow16((n - 2 - j) as nat) == v / pow16((n - 1 - j) as nat)) by {
                    assert(pow16((n - 1 - j) as nat) == 16 * pow16((n - 2 - j) as nat));
                    lemma_pow16_pos((n - 2 - j) as nat);
                    lemma_div_twice(v, 16, pow16((n - 2 - j) as nat));
                }
            }
        }
    }
}

} // verus!
