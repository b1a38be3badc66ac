//! The phone's own key, and what keeps it.
//!
//! The key is an ordinary identity file sealed under a passphrase nobody is
//! shown: thirty-two random bytes as hex, sealed by a [`Vault`] -- on a
//! phone the platform's key store -- and written beside it. Made on first
//! run, opened on every run, and **never overwritten**: an identity with no
//! sealed passphrase beside it is refused rather than replaced.
use vstd::prelude::*;
use rand_core::RngCore;

use crate::channel::{hex, hex_text};
use crate::settings::{join, join_path};
use crate::text::{chars_of, concat, string_of};
use vstd::utf8::{decode_utf8, encode_utf8, encode_utf8_decode_utf8, encode_utf8_valid_utf8, valid_utf8};

verus! {

/// What seals the passphrase: the platform's key store, behind a seam.
pub trait Vault: Send + Sync {
    /// Seal `plain`: opaque bytes only this vault opens.
    fn seal(&self, plain: &[u8]) -> Result<Vec<u8>, String>;

    /// Open what `seal` made, or say why not.
    fn open(&self, sealed: &[u8]) -> Result<Vec<u8>, String>;

    /// For the capabilities list.
    fn describe(&self) -> &'static str;
}

fn copy_bytes(b: &[u8]) -> (r: Vec<u8>)
    ensures
        r@ == b@,
{
    let mut out: Vec<u8> = Vec::new();
    let mut i: usize = 0;
    while i < b.len()
        invariant
            i <= b@.len(),
            out@ == b@.take(i as int),
        decreases b@.len() - i,
    {
        out.push(b[i]);
        i = i + 1;
    }
    assert(b@.take(b@.len() as int) == b@);
    out
}

/// A vault that keeps nothing sealed: tests, and a desktop run of the phone
/// build. Says so.
pub struct Unsealed;

impl Vault for Unsealed {
    fn seal(&self, plain: &[u8]) -> (r: Result<Vec<u8>, String>)
        ensures
            r matches Ok(v) && v@ == plain@,
    {
        Ok(copy_bytes(plain))
    }

    fn open(&self, sealed: &[u8]) -> (r: Result<Vec<u8>, String>)
        ensures
            r matches Ok(v) && v@ == sealed@,
    {
        Ok(copy_bytes(sealed))
    }

    fn describe(&self) -> (r: &'static str)
        ensures
            r@ == "no key store on this platform: the passphrase is written as it is"@,
    {
        "no key store on this platform: the passphrase is written as it is"
    }
}

/// Where the identity and its sealed passphrase live.
#[derive(Debug, Clone, PartialEq, Eq)]
pub struct Where {
    /// `~/.sqnr/identity`, where every sqnr client looks.
    pub identity: String,
    /// Beside sigil's own state.
    pub sealed: String,
}

impl Where {
    /// Under `home`: the identity where sqnr keeps one, the sealed
    /// passphrase where sigil keeps its state.
    pub fn under(home: &str) -> (w: Where)
        ensures
            w.identity@ == join_path(join_path(home@, ".sqnr"@), "identity"@),
            w.sealed@ == join_path(join_path(home@, ".local/share/sigil"@), "passphrase.sealed"@),
    {
        let sqnr = join(home, ".sqnr");
        let sigil = join(home, ".local/share/sigil");
        Where { identity: join(sqnr.as_str(), "identity"), sealed: join(sigil.as_str(), "passphrase.sealed") }
    }
}

/// What to do about the identity, given what is on disk.
#[derive(Debug, Clone, PartialEq, Eq)]
pub enum Plan {
    /// Both are there: open the sealed passphrase and unlock with it.
    Open,
    /// No identity: make one under a fresh passphrase, and seal that.
    Make,
    /// An identity with nothing to open it: refuse, and say why.
    Refuse(String),
}

pub open spec fn refusal_text(identity: Seq<char>) -> Seq<char> {
    identity + " exists but nothing here can open it: its passphrase is not in the key store. Move it aside to make a fresh device key, or restore the sealed passphrase beside it."@
}

/// **Never overwrites.** An identity with its sealed passphrase is opened;
/// no identity, a new one is made; an identity without one is refused --
/// the file is somebody's key, and a missing passphrase is a question, not
/// a licence.
pub fn plan(at: &Where, have_identity: bool, have_sealed: bool) -> (p: Plan)
    ensures
        have_identity && have_sealed ==> p == Plan::Open,
        !have_identity ==> p == Plan::Make,
        have_identity && !have_sealed ==> (p matches Plan::Refuse(why) && why@ == refusal_text(
            at.identity@,
        )),
        have_identity ==> p != Plan::Make,
{
    if !have_identity {
        Plan::Make
    } else if have_sealed {
        Plan::Open
    } else {
        let why = concat(
            &chars_of(at.identity.as_str()),
            &chars_of(
                " exists but nothing here can open it: its passphrase is not in the key store. Move it aside to make a fresh device key, or restore the sealed passphrase beside it.",
            ),
        );
        Plan::Refuse(string_of(&why))
    }
}

/// What the identity did not open with.
pub open spec fn locked_text(identity: Seq<char>) -> Seq<char> {
    identity + " did not open with the passphrase the key store holds"@
}

pub fn did_not_open(at: &Where) -> (r: String)
    ensures
        r@ == locked_text(at.identity@),
{
    string_of(
        &concat(
            &chars_of(at.identity.as_str()),
            &chars_of(" did not open with the passphrase the key store holds"),
        ),
    )
}

/// What the roster did not open with.
pub open spec fn roster_text(identity: Seq<char>) -> Seq<char> {
    identity + " did not open in the roster with the passphrase the key store holds"@
}

pub fn roster_refused(at: &Where) -> (r: String)
    ensures
        r@ == roster_text(at.identity@),
{
    string_of(
        &concat(
            &chars_of(at.identity.as_str()),
            &chars_of(" did not open in the roster with the passphrase the key store holds"),
        ),
    )
}

/// `String::from_utf8`: the bytes as text when they are UTF-8, as std
/// documents it, and an error otherwise. The claim is that std's test is
/// vstd's `valid_utf8`, and its text `decode_utf8`.
#[verifier::external_body]
fn utf8_text(bytes: Vec<u8>) -> (r: Option<String>)
    ensures
        match r {
            Some(s) => valid_utf8(bytes@) && s@ == decode_utf8(bytes@),
            None => !valid_utf8(bytes@),
        },
{
    String::from_utf8(bytes).ok()
}

/// The passphrase the vault opened, as text, or why not.
pub fn passphrase_from(plain: Vec<u8>) -> (r: Result<String, String>)
    ensures
        valid_utf8(plain@) ==> (r matches Ok(s) && s@ == decode_utf8(plain@)),
        !valid_utf8(plain@) ==> (r matches Err(e) && e@ == "the sealed passphrase is not text"@),
{
    match utf8_text(plain) {
        Some(s) => Ok(s),
        None => Err(String::from_str("the sealed passphrase is not text")),
    }
}

/// **A passphrase kept as its bytes reads back as itself**: whatever text
/// is sealed, what a faithful vault opens is valid UTF-8 and decodes to the
/// same text -- so `passphrase_from` gives back the passphrase that was
/// sealed.
pub proof fn passphrase_round_trip(text: Seq<char>)
    ensures
        valid_utf8(encode_utf8(text)),
        decode_utf8(encode_utf8(text)) == text,
{
    encode_utf8_valid_utf8(text);
    encode_utf8_decode_utf8(text);
}

/// Thirty-two bytes from the operating system's generator
/// (`rand_core::OsRng::try_fill_bytes`), or its failure in words. Nothing is
/// claimed of the bytes, nor of when the generator fails.
#[verifier::external_body]
fn random_bytes() -> (r: Result<[u8; 32], String>) {
    let mut bytes = [0u8; 32];
    match rand_core::OsRng.try_fill_bytes(&mut bytes) {
        Ok(()) => Ok(bytes),
        Err(e) => Err(e.to_string()),
    }
}

/// A fresh passphrase: thirty-two random bytes as hex. Nobody types it, so
/// it need not be typeable. The operating system's generator can fail, and
/// then there is no passphrase.
pub fn fresh_passphrase() -> (r: Result<String, String>)
    ensures
        r matches Ok(s) ==> exists|b: Seq<u8>| b.len() == 32 && s@ == hex_text(b),
{
    match random_bytes() {
        Ok(bytes) => Ok(hex(&bytes)),
        Err(why) => Err(why),
    }
}

} // verus!
