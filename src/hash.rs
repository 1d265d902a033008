//! The 128-bit identifier used for content keys, encoding keys and checksums.
use vstd::prelude::*;
use vstd::string::StrSliceExecFns;
use vstd::string::StringExecFns;

verus! {

/// Error returned when text is not exactly 32 hexadecimal digits.
#[derive(Debug, Clone, Copy, PartialEq, Eq, Structural)]
pub struct Md5Error;

/// A 16-byte identifier, ordered by its bytes.
#[derive(Clone, Copy, Debug, Eq, PartialOrd, Ord, Hash)]
pub struct Md5Hash(pub [u8; 16]);

impl View for Md5Hash {
    type V = Seq<u8>;

    open spec fn view(&self) -> Seq<u8> {
        self.0@
    }
}

/// The lowercase hexadecimal digit for a value below 16.
pub open spec fn hex_digit(n: u8) -> char {
    if n < 10 {
        (n + 48) as char
    } else {
        (n + 87) as char
    }
}

/// Two lowercase hexadecimal digits per byte, most significant digit first.
pub open spec fn hex_string(b: Seq<u8>) -> Seq<char>
    decreases b.len(),
{
    if b.len() == 0 {
        Seq::empty()
    } else {
        let last = b.last();
        hex_string(b.drop_last()) + seq![hex_digit(last / 16), hex_digit(last % 16)]
    }
}

/// Whether a character is a hexadecimal digit, in either case.
pub open spec fn is_hex_char(c: char) -> bool {
    ('0' <= c && c <= '9') || ('a' <= c && c <= 'f') || ('A' <= c && c <= 'F')
}

/// The value of a hexadecimal digit.
pub open spec fn hex_value(c: char) -> u8 {
    if '0' <= c && c <= '9' {
        (c as u32 - 48) as u8
    } else if 'a' <= c && c <= 'f' {
        (c as u32 - 87) as u8
    } else {
        (c as u32 - 55) as u8
    }
}

/// Whether `s` spells out exactly 16 bytes in hexadecimal.
pub open spec fn is_hash_text(s: Seq<char>) -> bool {
    s.len() == 32 && forall|i: int| 0 <= i < 32 ==> #[trigger] is_hex_char(s[i])
}

/// The bytes that a text of 32 hexadecimal digits spells out.
pub open spec fn hash_text_bytes(s: Seq<char>) -> Seq<u8> {
    Seq::new(16, |i: int| (hex_value(s[2 * i]) * 16 + hex_value(s[2 * i + 1])) as u8)
}

/// Relies on hex::decode_to_slice: it succeeds exactly when the input is twice
/// as long as the output and every byte is a hexadecimal digit, and then stores
/// each pair of digits as one byte, the first digit as the high nibble.
#[verifier::external_body]
fn decode_hex16(s: &str) -> (r: Result<[u8; 16], hex::FromHexError>)
    ensures
        r is Ok <==> is_hash_text(s@),
        r matches Ok(a) ==> a@ == hash_text_bytes(s@),
{
    let mut out = [0u8; 16];
    hex::decode_to_slice(s, &mut out).map(|_| out)
}

#[verifier::external_type_specification]
#[verifier::external_body]
pub struct ExFromHexError(hex::FromHexError);

/// The digit table used by `as_str` lists the digits in order.
proof fn lemma_digit_table(n: u8)
    requires
        n < 16,
    ensures
        "0123456789abcdef"@[n as int] == hex_digit(n),
{
    reveal_strlit("0123456789abcdef");
    let t = "0123456789abcdef"@;
    if n == 0 {
        assert(t[0] == hex_digit(n));
    } else if n == 1 {
        assert(t[1] == hex_digit(n));
    } else if n == 2 {
        assert(t[2] == hex_digit(n));
    } else if n == 3 {
        assert(t[3] == hex_digit(n));
    } else if n == 4 {
        assert(t[4] == hex_digit(n));
    } else if n == 5 {
        assert(t[5] == hex_digit(n));
    } else if n == 6 {
        assert(t[6] == hex_digit(n));
    } else if n == 7 {
        assert(t[7] == hex_digit(n));
    } else if n == 8 {
        assert(t[8] == hex_digit(n));
    } else if n == 9 {
        assert(t[9] == hex_digit(n));
    } else if n == 10 {
        assert(t[10] == hex_digit(n));
    } else if n == 11 {
        assert(t[11] == hex_digit(n));
    } else if n == 12 {
        assert(t[12] == hex_digit(n));
    } else if n == 13 {
        assert(t[13] == hex_digit(n));
    } else if n == 14 {
        assert(t[14] == hex_digit(n));
    } else if n == 15 {
        assert(t[15] == hex_digit(n));
    }
}

impl Md5Hash {
    /// Whether every byte is zero.
    pub open spec fn spec_is_null(&self) -> bool {
        forall|i: int| 0 <= i < 16 ==> #[trigger] self.0[i] == 0
    }

    /// Whether the hash is all zeroes.
    pub fn is_null(&self) -> (r: bool)
        ensures
            r == self.spec_is_null(),
    {
        let mut i: usize = 0;
        while i < 16
            invariant
                0 <= i <= 16,
                forall|j: int| 0 <= j < i ==> #[trigger] self.0[j] == 0,
            decreases 16 - i,
        {
            if self.0[i] != 0 {
                return false;
            }
            i = i + 1;
        }
        true
    }

    /// The 32-character lowercase hexadecimal form of the hash.
    pub fn as_str(&self) -> (s: String)
        ensures
            s@ == hex_string(self@),
    {
        let digits = "0123456789abcdef";
        proof {
            reveal_strlit("0123456789abcdef");
        }
        let mut s = String::new();
        let mut i: usize = 0;
        while i < 16
            invariant
                0 <= i <= 16,
                digits@ == "0123456789abcdef"@,
                digits@.len() == 16,
                s@ == hex_string(self@.subrange(0, i as int)),
            decreases 16 - i,
        {
            let b = self.0[i];
            let hi = (b / 16) as usize;
            let lo = (b % 16) as usize;
            s.append(digits.substring_char(hi, hi + 1));
            s.append(digits.substring_char(lo, lo + 1));
            proof {
                let pre = self@.subrange(0, i as int + 1);
                assert(pre.drop_last() =~= self@.subrange(0, i as int));
                lemma_digit_table(b / 16);
                lemma_digit_table(b % 16);
                assert(digits@.subrange(hi as int, hi + 1) =~= seq![hex_digit(b / 16)]);
                assert(digits@.subrange(lo as int, lo + 1) =~= seq![hex_digit(b % 16)]);
            }
            i = i + 1;
        }
        assert(self@.subrange(0, 16) =~= self@);
        s
    }

    /// Reads a hash from 32 hexadecimal digits, in either case.
    pub fn from_str(s: &str) -> (r: Result<Md5Hash, Md5Error>)
        ensures
            r is Ok <==> is_hash_text(s@),
            r matches Ok(h) ==> h@ == hash_text_bytes(s@),
    {
        match decode_hex16(s) {
            Ok(a) => Ok(Md5Hash(a)),
            Err(_) => Err(Md5Error),
        }
    }
}

impl PartialEq for Md5Hash {
    fn eq(&self, other: &Md5Hash) -> (r: bool)
        ensures
            r == (self@ == other@),
    {
        let mut i: usize = 0;
        while i < 16
            invariant
                0 <= i <= 16,
                forall|j: int| 0 <= j < i ==> #[trigger] self.0[j] == other.0[j],
            decreases 16 - i,
        {
            if self.0[i] != other.0[i] {
                return false;
            }
            i = i + 1;
        }
        assert(self@ =~= other@);
        true
    }
}

impl vstd::std_specs::cmp::PartialEqSpecImpl for Md5Hash {
    open spec fn obeys_eq_spec() -> bool {
        true
    }

    open spec fn eq_spec(&self, other: &Md5Hash) -> bool {
        self@ == other@
    }
}

} // verus!
