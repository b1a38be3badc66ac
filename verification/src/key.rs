//! A device or account key as people read it: thirty-two bytes, written in
//! base58 (the bitcoin alphabet), which is case-sensitive.
use vstd::prelude::*;

verus! {

/// What `bs58` writes for these bytes.
pub uninterp spec fn base58_text(bytes: Seq<u8>) -> Seq<char>;

/// What `bs58` reads from this text: the bytes, or its refusal in words.
pub uninterp spec fn base58_read(text: Seq<char>) -> Result<Seq<u8>, Seq<char>>;

/// The bitcoin base58 alphabet: the digits and letters without `0`, `O`, `I`
/// and `l`.
pub open spec fn is_base58_char(c: char) -> bool {
    ||| ('1' <= c && c <= '9')
    ||| ('A' <= c && c <= 'H')
    ||| ('J' <= c && c <= 'N')
    ||| ('P' <= c && c <= 'Z')
    ||| ('a' <= c && c <= 'k')
    ||| ('m' <= c && c <= 'z')
}

/// A parse's result, as `key_read` says it is.
pub open spec fn key_agrees(text: Seq<char>, r: Result<PubKey, String>) -> bool {
    match r {
        Ok(k) => key_read(text) == Ok::<Seq<u8>, Seq<char>>(k.bytes@),
        Err(e) => key_read(text) == Err::<Seq<u8>, Seq<char>>(e@),
    }
}

pub open spec fn all_base58(s: Seq<char>) -> bool {
    forall|i: int| 0 <= i < s.len() ==> is_base58_char(#[trigger] s[i])
}

/// What a key's text means: thirty-two bytes, or why it is not a key.
pub open spec fn key_read(text: Seq<char>) -> Result<Seq<u8>, Seq<char>> {
    match base58_read(text) {
        Ok(bytes) => if bytes.len() == 32 {
            Ok(bytes)
        } else {
            Err(wrong_length())
        },
        Err(why) => Err(why),
    }
}

pub open spec fn wrong_length() -> Seq<char> {
    "a key is 32 bytes"@
}

/// `bs58::encode(bytes).into_string()`.
///
/// Claimed of it, as its source shows: the text is `base58_text` of the
/// bytes; it is not empty for a non-empty input; every character is in the
/// alphabet; it is at most 44 characters, which is as many base58 digits as
/// thirty-two bytes can need (a leading `1` for each leading zero byte and
/// the digits of the rest); and `bs58::decode` reads the same bytes back
/// from it.
#[verifier::external_body]
fn encode_base58(bytes: &[u8; 32]) -> (r: String)
    ensures
        r@ == base58_text(bytes@),
        r@.len() > 0,
        r@.len() <= 44,
        all_base58(r@),
        base58_read(r@) is Ok,
        base58_read(r@)->Ok_0 == bytes@,
{
    bs58::encode(bytes).into_string()
}

/// `bs58::decode(text).into_vec()`, its error in words (`Display`).
///
/// Claimed of it: what it returns is `base58_read` of the text; and, as its
/// source shows, a text with a character outside the alphabet is refused
/// before any arithmetic. Which texts of the alphabet decode to what is the
/// crate's arithmetic, and is not spelled out.
#[verifier::external_body]
fn decode_base58(text: &str) -> (r: Result<Vec<u8>, String>)
    ensures
        r is Ok <==> base58_read(text@) is Ok,
        r is Ok ==> base58_read(text@)->Ok_0 == r->Ok_0@,
        r is Err ==> base58_read(text@)->Err_0 == r->Err_0@,
        !all_base58(text@) ==> r is Err,
{
    match bs58::decode(text).into_vec() {
        Ok(v) => Ok(v),
        Err(e) => Err(e.to_string()),
    }
}

/// A public key: thirty-two bytes.
#[derive(Debug, Clone, Copy, PartialEq, Eq, Hash)]
pub struct PubKey {
    pub bytes: [u8; 32],
}

impl PubKey {
    pub fn new(bytes: [u8; 32]) -> (k: PubKey)
        ensures
            k.bytes == bytes,
    {
        PubKey { bytes }
    }

    /// The key as it is shown: its bytes in base58.
    pub fn text(&self) -> (s: String)
        ensures
            s@ == base58_text(self.bytes@),
            s@.len() > 0,
            s@.len() <= 44,
            all_base58(s@),
            key_read(s@) == Ok::<Seq<u8>, Seq<char>>(self.bytes@),
    {
        encode_base58(&self.bytes)
    }

    /// The key a text names, or why it names none.
    pub fn parse(text: &str) -> (r: Result<PubKey, String>)
        ensures
            key_agrees(text@, r),
            !all_base58(text@) ==> r is Err,
    {
        match decode_base58(text) {
            Ok(v) => {
                if v.len() == 32 {
                    let mut bytes = [0u8; 32];
                    let mut i: usize = 0;
                    while i < 32
                        invariant
                            i <= 32,
                            v@.len() == 32,
                            forall|k: int| 0 <= k < i ==> bytes@[k] == v@[k],
                        decreases 32 - i,
                    {
                        bytes[i] = v[i];
                        i = i + 1;
                    }
                    assert(bytes@ =~= v@);
                    Ok(PubKey { bytes })
                } else {
                    let why = String::from_str("a key is 32 bytes");
                    proof {
                        reveal_strlit("a key is 32 bytes");
                    }
                    Err(why)
                }
            },
            Err(e) => Err(e),
        }
    }
}

} // verus!
