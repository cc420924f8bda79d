//! Standard base64 (RFC 4648 alphabet, `=` padding).

use vstd::prelude::*;
use crate::text::push_char;

verus! {

/// The base64 alphabet: `A`-`Z`, `a`-`z`, `0`-`9`, `+`, `/` for the values 0 to 63.
pub open spec fn alphabet_char(v: nat) -> char {
    if v < 26 {
        ((v + 65) as u32) as char
    } else if v < 52 {
        ((v - 26 + 97) as u32) as char
    } else if v < 62 {
        ((v - 52 + 48) as u32) as char
    } else if v == 62 {
        '+'
    } else {
        '/'
    }
}

/// The four characters that encode one group of `n` bytes (`1 <= n <= 3`), the
/// missing bytes counted as zero and their characters replaced by `=`.
pub open spec fn encode_group(b0: u8, b1: u8, b2: u8, n: nat) -> Seq<char> {
    seq![
        alphabet_char((b0 / 4) as nat),
        alphabet_char(((b0 % 4) * 16 + b1 / 16) as nat),
        if n > 1 { alphabet_char(((b1 % 16) * 4 + b2 / 64) as nat) } else { '=' },
        if n > 2 { alphabet_char((b2 % 64) as nat) } else { '=' },
    ]
}

/// The base64 encoding of `data`: one group of four characters for each three bytes,
/// the last group padded.
pub open spec fn base64(data: Seq<u8>) -> Seq<char>
    decreases data.len(),
{
    if data.len() == 0 {
        seq![]
    } else if data.len() <= 3 {
        encode_group(
            data[0],
            if data.len() > 1 { data[1] } else { 0 },
            if data.len() > 2 { data[2] } else { 0 },
            data.len(),
        )
    } else {
        encode_group(data[0], data[1], data[2], 3) + base64(data.skip(3))
    }
}

fn alphabet(v: u8) -> (c: char)
    requires
        v < 64,
    ensures
        c == alphabet_char(v as nat),
{
    if v < 26 {
        (v + 65) as char
    } else if v < 52 {
        (v - 26 + 97) as char
    } else if v < 62 {
        (v - 52 + 48) as char
    } else if v == 62 {
        '+'
    } else {
        '/'
    }
}

/// The length of the encoding: four characters for every started group of three bytes.
pub proof fn lemma_base64_len(data: Seq<u8>)
    ensures
        base64(data).len() == 4 * ((data.len() + 2) / 3),
    decreases data.len(),
{
    if data.len() > 3 {
        lemma_base64_len(data.skip(3));
    }
}

/// One of the 64 characters of the base64 alphabet.
pub open spec fn is_alphabet_char(c: char) -> bool {
    ||| 65 <= (c as u32) <= 90
    ||| 97 <= (c as u32) <= 122
    ||| 48 <= (c as u32) <= 57
    ||| c == '+'
    ||| c == '/'
}

/// The number of `=` that pad the encoding of `n` bytes.
pub open spec fn padding_len(n: nat) -> nat {
    ((3 - n % 3) % 3) as nat
}

proof fn lemma_alphabet_char(v: nat)
    requires
        v < 64,
    ensures
        is_alphabet_char(alphabet_char(v)),
        alphabet_char(v) != '=',
{
    if v < 26 {
        assert(((v + 65) as u32) as char as u32 == v + 65);
    } else if v < 52 {
        assert(((v - 26 + 97) as u32) as char as u32 == v - 26 + 97);
    } else if v < 62 {
        assert(((v - 52 + 48) as u32) as char as u32 == v - 52 + 48);
    }
}

proof fn lemma_group_shape(b0: u8, b1: u8, b2: u8, n: nat)
    requires
        1 <= n <= 3,
    ensures
        encode_group(b0, b1, b2, n).len() == 4,
        forall|k: int| 0 <= k < 4 ==> (#[trigger] encode_group(b0, b1, b2, n)[k] == '=' <==> k >= n + 1),
        forall|k: int| 0 <= k < n + 1 ==> is_alphabet_char(#[trigger] encode_group(b0, b1, b2, n)[k]),
{
    lemma_alphabet_char((b0 / 4) as nat);
    lemma_alphabet_char(((b0 % 4) * 16 + b1 / 16) as nat);
    lemma_alphabet_char(((b1 % 16) * 4 + b2 / 64) as nat);
    lemma_alphabet_char((b2 % 64) as nat);
}

/// The shape of an encoding: every character is of the alphabet but the padding, which
/// is `padding_len` characters `=` at the very end.
pub proof fn lemma_base64_alphabet_and_padding(data: Seq<u8>)
    ensures
        base64(data).len() == 4 * ((data.len() + 2) / 3),
        forall|k: int| 0 <= k < base64(data).len() ==>
            (#[trigger] base64(data)[k] == '=' <==> k >= base64(data).len() - padding_len(data.len())),
        forall|k: int| 0 <= k < base64(data).len() - padding_len(data.len()) ==> is_alphabet_char(#[trigger] base64(data)[k]),
    decreases data.len(),
{
    lemma_base64_len(data);
    if data.len() == 0 {
    } else if data.len() <= 3 {
        lemma_group_shape(
            data[0],
            if data.len() > 1 { data[1] } else { 0 },
            if data.len() > 2 { data[2] } else { 0 },
            data.len(),
        );
    } else {
        let rest = data.skip(3);
        lemma_base64_alphabet_and_padding(rest);
        lemma_group_shape(data[0], data[1], data[2], 3);
        let g = encode_group(data[0], data[1], data[2], 3);
        let s = base64(data);
        assert(s == g + base64(rest));
        assert(padding_len(data.len()) == padding_len(rest.len()));
        assert forall|k: int| 0 <= k < s.len() implies (#[trigger] s[k] == '=' <==> k >= s.len() - padding_len(data.len())) by {
            if k < 4 {
                assert(s[k] == g[k]);
            } else {
                assert(s[k] == base64(rest)[k - 4]);
            }
        }
        assert forall|k: int| 0 <= k < s.len() - padding_len(data.len()) implies is_alphabet_char(#[trigger] s[k]) by {
            if k < 4 {
                assert(s[k] == g[k]);
            } else {
                assert(s[k] == base64(rest)[k - 4]);
            }
        }
    }
}

/// Encoding is compositional on whole groups: when the first part is a multiple of three
/// bytes long, the encoding of the whole is the encodings of the parts, one after the other.
pub proof fn lemma_base64_concat(a: Seq<u8>, b: Seq<u8>)
    requires
        a.len() % 3 == 0,
    ensures
        base64(a + b) == base64(a) + base64(b),
    decreases a.len(),
{
    if a.len() == 0 {
        assert(a + b =~= b);
        assert(base64(a) + base64(b) =~= base64(b));
    } else if b.len() == 0 {
        assert(a + b =~= a);
        assert(base64(a) + base64(b) =~= base64(a));
    } else {
        let ab = a + b;
        assert(ab[0] == a[0] && ab[1] == a[1] && ab[2] == a[2]);
        assert(ab.skip(3) =~= a.skip(3) + b);
        lemma_base64_concat(a.skip(3), b);
        if a.len() == 3 {
            assert(a.skip(3) =~= Seq::<u8>::empty());
            assert(a.skip(3) + b =~= b);
        }
        assert(base64(ab) == encode_group(a[0], a[1], a[2], 3) + base64(a.skip(3) + b));
        assert(base64(ab) =~= base64(a) + base64(b));
    }
}

/// The value of a character of the base64 alphabet (see `alphabet_char`).
pub open spec fn char_value(c: char) -> nat {
    let v = c as u32;
    if 65 <= v <= 90 {
        (v - 65) as nat
    } else if 97 <= v <= 122 {
        (v - 97 + 26) as nat
    } else if 48 <= v <= 57 {
        (v - 48 + 52) as nat
    } else if c == '+' {
        62
    } else {
        63
    }
}

/// The bytes that a group of four characters carries: three, or one or two when the
/// group ends in two or one `=`.
pub open spec fn decode_group(g: Seq<char>) -> Seq<u8> {
    let v0 = char_value(g[0]);
    let v1 = char_value(g[1]);
    let v2 = char_value(g[2]);
    let v3 = char_value(g[3]);
    let b0 = (v0 * 4 + v1 / 16) as u8;
    let b1 = ((v1 % 16) * 16 + v2 / 4) as u8;
    let b2 = ((v2 % 4) * 64 + v3) as u8;
    if g[2] == '=' {
        seq![b0]
    } else if g[3] == '=' {
        seq![b0, b1]
    } else {
        seq![b0, b1, b2]
    }
}

/// Standard base64 decoding, group by group of four characters.
pub open spec fn base64_decode(s: Seq<char>) -> Seq<u8>
    decreases s.len(),
{
    if s.len() < 4 {
        seq![]
    } else {
        decode_group(s.take(4)) + base64_decode(s.skip(4))
    }
}

proof fn lemma_char_value(v: nat)
    requires
        v < 64,
    ensures
        char_value(alphabet_char(v)) == v,
{
    lemma_alphabet_char(v);
    if v < 26 {
        assert(((v + 65) as u32) as char as u32 == v + 65);
    } else if v < 52 {
        assert(((v - 26 + 97) as u32) as char as u32 == v - 26 + 97);
    } else if v < 62 {
        assert(((v - 52 + 48) as u32) as char as u32 == v - 52 + 48);
    }
}

proof fn lemma_decode_group(b0: u8, b1: u8, b2: u8, n: nat)
    requires
        1 <= n <= 3,
    ensures
        decode_group(encode_group(b0, b1, b2, n)) == seq![b0, b1, b2].take(n as int),
{
    let c0: u8 = (b0 / 4) as u8;
    let c1: u8 = ((b0 % 4) * 16 + b1 / 16) as u8;
    let c2: u8 = ((b1 % 16) * 4 + b2 / 64) as u8;
    let c3: u8 = (b2 % 64) as u8;
    lemma_char_value(c0 as nat);
    lemma_char_value(c1 as nat);
    lemma_char_value(c2 as nat);
    lemma_char_value(c3 as nat);
    lemma_group_shape(b0, b1, b2, n);
    let g = encode_group(b0, b1, b2, n);
    assert(c0 * 4 + c1 / 16 == b0 && c0 * 4 + c1 / 16 < 256) by (bit_vector)
        requires
            c0 == b0 / 4,
            c1 == (b0 % 4) * 16 + b1 / 16,
    ;
    assert((c1 % 16) * 16 + c2 / 4 == b1 && (c1 % 16) * 16 + c2 / 4 < 256) by (bit_vector)
        requires
            c1 == (b0 % 4) * 16 + b1 / 16,
            c2 == (b1 % 16) * 4 + b2 / 64,
    ;
    assert((c2 % 4) * 64 + c3 == b2 && (c2 % 4) * 64 + c3 < 256) by (bit_vector)
        requires
            c2 == (b1 % 16) * 4 + b2 / 64,
            c3 == b2 % 64,
    ;
    if n == 1 {
        assert(g[2] == '=');
        assert(decode_group(g) =~= seq![b0]);
    } else if n == 2 {
        assert(g[2] != '=' && g[3] == '=');
        assert(char_value(g[2]) == c2);
        assert(decode_group(g) =~= seq![b0, b1]);
    } else {
        assert(g[2] != '=' && g[3] != '=');
        assert(decode_group(g) =~= seq![b0, b1, b2]);
    }
    assert(seq![b0, b1, b2].take(n as int) =~= decode_group(g));
}

/// Decoding an encoding gives back the data.
pub proof fn lemma_base64_decode_encode(data: Seq<u8>)
    ensures
        base64_decode(base64(data)) == data,
    decreases data.len(),
{
    let s = base64(data);
    if data.len() == 0 {
    } else if data.len() <= 3 {
        let b1 = if data.len() > 1 { data[1] } else { 0 };
        let b2 = if data.len() > 2 { data[2] } else { 0 };
        lemma_decode_group(data[0], b1, b2, data.len());
        lemma_group_shape(data[0], b1, b2, data.len());
        assert(s.take(4) =~= s);
        assert(s.skip(4) =~= Seq::<char>::empty());
        assert(base64_decode(s.skip(4)) =~= Seq::<u8>::empty());
        assert(base64_decode(s) =~= decode_group(s.take(4)) + base64_decode(s.skip(4)));
        assert(base64_decode(s) =~= decode_group(s));
        assert(seq![data[0], b1, b2].take(data.len() as int) =~= data);
    } else {
        let g = encode_group(data[0], data[1], data[2], 3);
        lemma_group_shape(data[0], data[1], data[2], 3);
        lemma_decode_group(data[0], data[1], data[2], 3);
        lemma_base64_decode_encode(data.skip(3));
        assert(s == g + base64(data.skip(3)));
        assert(s.take(4) =~= g);
        assert(s.skip(4) =~= base64(data.skip(3)));
        assert(seq![data[0], data[1], data[2]].take(3) + data.skip(3) =~= data);
    }
}

/// Encodes `data` as standard base64 with padding.
pub fn base64_encode(data: &[u8]) -> (out: String)
    ensures
        out@ == base64(data@),
        out@.len() == 4 * ((data@.len() + 2) / 3),
{
    let mut out = String::new();
    let len = data.len();
    let mut i: usize = 0;
    assert(data@.skip(0) == data@);
    while i < len
        invariant
            i <= len,
            len == data@.len(),
            base64(data@) == out@ + base64(data@.skip(i as int)),
        decreases len - i,
    {
        let n = len - i;
        let b0 = data[i];
        let b1 = if n > 1 { data[i + 1] } else { 0 };
        let b2 = if n > 2 { data[i + 2] } else { 0 };
        let c0 = b0 >> 2;
        let c1 = ((b0 & 0x03) << 4) | (b1 >> 4);
        let c2 = ((b1 & 0x0f) << 2) | (b2 >> 6);
        let c3 = b2 & 0x3f;
        assert(c0 == b0 / 4 && c0 < 64) by (bit_vector)
            requires c0 == b0 >> 2;
        assert(c1 == (b0 % 4) * 16 + b1 / 16 && c1 < 64) by (bit_vector)
            requires c1 == ((b0 & 0x03) << 4) | (b1 >> 4);
        assert(c2 == (b1 % 16) * 4 + b2 / 64 && c2 < 64) by (bit_vector)
            requires c2 == ((b1 & 0x0f) << 2) | (b2 >> 6);
        assert(c3 == b2 % 64 && c3 < 64) by (bit_vector)
            requires c3 == b2 & 0x3f;
        let ghost rest = data@.skip(i as int);
        let ghost prev = out@;
        let ch0 = alphabet(c0);
        push_char(&mut out, ch0);
        let ch1 = alphabet(c1);
        push_char(&mut out, ch1);
        if n > 1 {
            let ch2 = alphabet(c2);
            push_char(&mut out, ch2);
        } else {
            push_char(&mut out, '=');
        }
        if n > 2 {
            let ch3 = alphabet(c3);
            push_char(&mut out, ch3);
        } else {
            push_char(&mut out, '=');
        }
        if n <= 3 {
            assert(out@ == prev + base64(rest));
            assert(data@.skip(len as int) =~= Seq::<u8>::empty());
            i = len;
        } else {
            assert(rest.skip(3) =~= data@.skip(i + 3));
            assert(out@ == prev + encode_group(b0, b1, b2, 3));
            i = i + 3;
        }
    }
    proof {
        lemma_base64_len(data@);
    }
    out
}

} // verus!
