use vstd::prelude::*;
use vstd::string::*;
use vstd::utf8::is_ascii_chars;
use sha1::{Digest, Sha1};

verus! {

/// The 20-byte SHA-1 fingerprint of the UTF-8 encoding of a character
/// sequence. The value depends on the characters alone, the same in every
/// run and on every machine, so it is given a name here rather than spelled
/// out as an algorithm nothing could hold the outside code to.
pub uninterp spec fn sha1_of(s: Seq<char>) -> Seq<u8>;

/// Relies on the sha1 crate (`Sha1` through `digest::Digest::digest`): a
/// fresh, independently owned hashing context computes the SHA-1 digest of
/// the input bytes, 20 bytes long (`OutputSize = U20`), a pure function of
/// the input.
#[verifier::external_body]
fn sha1_bytes(secret: &str) -> (r: Vec<u8>)
    ensures
        r@ == sha1_of(secret@),
        r@.len() == 20,
{
    Sha1::digest(secret.as_bytes()).to_vec()
}

/// The character for one hexadecimal digit, upper case.
pub open spec fn hex_char_of(n: u8) -> char
    recommends
        n < 16,
{
    if n < 10 {
        ((n + 48) as u8) as char
    } else {
        ((n + 55) as u8) as char
    }
}

/// Upper-case hexadecimal rendering of a byte sequence, two digits per byte.
pub open spec fn hex_of(bytes: Seq<u8>) -> Seq<char>
    decreases bytes.len(),
{
    if bytes.len() == 0 {
        Seq::empty()
    } else {
        seq![hex_char_of(bytes[0] / 16), hex_char_of(bytes[0] % 16)] + hex_of(bytes.drop_first())
    }
}

/// The Digest of a secret as the pipeline uses it: the SHA-1 fingerprint
/// rendered as 40 upper-case hexadecimal characters.
pub open spec fn digest_of(s: Seq<char>) -> Seq<char> {
    hex_of(sha1_of(s))
}

/// `hex_of` renders two characters per byte, all of them ASCII.
pub proof fn lemma_hex_of_len(bytes: Seq<u8>)
    ensures
        hex_of(bytes).len() == 2 * bytes.len(),
        is_ascii_chars(hex_of(bytes)),
    decreases bytes.len(),
{
    if bytes.len() > 0 {
        lemma_hex_of_len(bytes.drop_first());
    }
}

/// Rendering a byte sequence one byte at a time agrees with `hex_of`.
proof fn lemma_hex_of_snoc(bytes: Seq<u8>, i: int)
    requires
        0 <= i < bytes.len(),
    ensures
        hex_of(bytes.take(i + 1)) == hex_of(bytes.take(i)) + seq![
            hex_char_of(bytes[i] / 16),
            hex_char_of(bytes[i] % 16),
        ],
    decreases i,
{
    let a = bytes.take(i + 1);
    let b = bytes.take(i);
    if i == 0 {
        assert(a.drop_first() =~= Seq::<u8>::empty());
        assert(b =~= Seq::<u8>::empty());
        assert(hex_of(a) =~= hex_of(b) + seq![
            hex_char_of(bytes[0] / 16),
            hex_char_of(bytes[0] % 16),
        ]);
    } else {
        lemma_hex_of_snoc(bytes.drop_first(), i - 1);
        assert(a.drop_first() =~= bytes.drop_first().take(i));
        assert(b.drop_first() =~= bytes.drop_first().take(i - 1));
        assert(a[0] == bytes[0]);
        assert(b[0] == bytes[0]);
        assert(bytes.drop_first()[i - 1] == bytes[i]);
        assert(hex_of(a) =~= hex_of(b) + seq![
            hex_char_of(bytes[i] / 16),
            hex_char_of(bytes[i] % 16),
        ]);
    }
}

/// One hexadecimal digit as a string slice, upper case.
fn hex_digit_str(n: u8) -> (s: &'static str)
    requires
        n < 16,
    ensures
        s@ == seq![hex_char_of(n)],
{
    proof {
        reveal_strlit("0");
        reveal_strlit("1");
        reveal_strlit("2");
        reveal_strlit("3");
        reveal_strlit("4");
        reveal_strlit("5");
        reveal_strlit("6");
        reveal_strlit("7");
        reveal_strlit("8");
        reveal_strlit("9");
        reveal_strlit("A");
        reveal_strlit("B");
        reveal_strlit("C");
        reveal_strlit("D");
        reveal_strlit("E");
        reveal_strlit("F");
    }
    match n {
        0 => "0",
        1 => "1",
        2 => "2",
        3 => "3",
        4 => "4",
        5 => "5",
        6 => "6",
        7 => "7",
        8 => "8",
        9 => "9",
        10 => "A",
        11 => "B",
        12 => "C",
        13 => "D",
        14 => "E",
        _ => "F",
    }
}

/// Renders bytes as upper-case hexadecimal text.
fn to_hex_upper(bytes: &Vec<u8>) -> (s: String)
    ensures
        s@ == hex_of(bytes@),
{
    let mut s = String::new();
    let mut i: usize = 0;
    proof {
        assert(bytes@.take(0) =~= Seq::<u8>::empty());
    }
    while i < bytes.len()
        invariant
            i <= bytes@.len(),
            s@ == hex_of(bytes@.take(i as int)),
        decreases bytes@.len() - i,
    {
        let b = bytes[i];
        let hi = hex_digit_str(b / 16);
        let lo = hex_digit_str(b % 16);
        s.append(hi);
        s.append(lo);
        proof {
            lemma_hex_of_snoc(bytes@, i as int);
        }
        i = i + 1;
    }
    proof {
        assert(bytes@.take(bytes@.len() as int) =~= bytes@);
    }
    s
}

/// Computes the Digest of one secret: deterministic, independent per call,
/// always 40 upper-case hexadecimal (hence ASCII) characters.
pub fn digest(secret: &str) -> (d: String)
    ensures
        d@ == digest_of(secret@),
        d@.len() == 40,
        is_ascii_chars(d@),
{
    let bytes = sha1_bytes(secret);
    let d = to_hex_upper(&bytes);
    proof {
        lemma_hex_of_len(bytes@);
    }
    d
}

} // verus!
