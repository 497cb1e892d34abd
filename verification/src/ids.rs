//! Category identifiers: 21 symbols drawn from a 36-symbol alphabet.
use vstd::prelude::*;

verus! {

/// Length of characters in an id.
pub const ID_LENGTH: usize = 21;

/// Alphabet of characters making up an id.
const ID_ALPHABET: [char; 36] = [
    '2', '3', '4', '5', '6', '7', '8', '9', '_', 'a', 'b', 'c', 'd', 'e', 'f', 'g', 'h', 'i', 'j',
    'k', 'l', 'm', 'n', 'o', 'p', 'q', 'r', 's', 't', 'u', 'v', 'w', 'x', 'y', 'z', '-',
];

/// A character the id alphabet admits: '2'..'9', 'a'..'z', '_' or '-'.
pub open spec fn is_id_char(c: char) -> bool {
    ||| 0x32 <= c as u32 <= 0x39
    ||| 0x61 <= c as u32 <= 0x7a
    ||| c as u32 == 0x5f
    ||| c as u32 == 0x2d
}

/// A well-formed id: exactly `ID_LENGTH` characters, all from the alphabet.
pub open spec fn valid_id(s: Seq<char>) -> bool {
    &&& s.len() == ID_LENGTH
    &&& forall|i: int| 0 <= i < s.len() ==> is_id_char(#[trigger] s[i])
}

/// No id character is a colon; cursor and cache-key parsing rely on this.
pub proof fn lemma_id_char_not_colon(c: char)
    requires
        is_id_char(c),
    ensures
        c != ':',
{
    assert(':' as u32 == 0x3a);
}

/// Decides `is_id_char`.
pub fn id_char_ok(c: char) -> (r: bool)
    ensures
        r == is_id_char(c),
{
    let x = c as u32;
    (x >= 0x32 && x <= 0x39) || (x >= 0x61 && x <= 0x7a) || x == 0x5f || x == 0x2d
}

/// Decides `valid_id`.
pub fn is_valid_id(s: &str) -> (r: bool)
    ensures
        r == valid_id(s@),
{
    let len = s.unicode_len();
    if len != ID_LENGTH {
        return false;
    }
    let mut i: usize = 0;
    while i < len
        invariant
            len == s@.len() == ID_LENGTH,
            0 <= i <= len,
            forall|j: int| 0 <= j < i ==> is_id_char(#[trigger] s@[j]),
        decreases len - i,
    {
        if !id_char_ok(s.get_char(i)) {
            return false;
        }
        i += 1;
    }
    true
}

/// Generates a nanoid (21 characters).
///
/// Relies on `nanoid::format` with the service alphabet and the crate's
/// default random source: the result has exactly `size` characters, each
/// drawn from the given alphabet.
#[verifier::external_body]
pub fn generate_id() -> (r: String)
    ensures
        valid_id(r@),
{
    nanoid::format(nanoid::rngs::default, &ID_ALPHABET, ID_LENGTH)
}

} // verus!
