//! The two pairing strings: `sqx-device:<key>`, what the phone shows, and
//! `sqx-pair:<account>@<domain>[,<domain>]`, where it is told to go.
//!
//! Forgiving about white space around the parts and about case in domains,
//! where case means nothing; strict about the key, which is base58 and
//! case-sensitive.
use vstd::prelude::*;
use vstd::string::StringSliceAdditionalSpecFns;
use vstd::utf8::{encode_utf8, is_ascii_chars, is_ascii_chars_encode_utf8};

use crate::key::{base58_text, is_base58_char, key_read, all_base58, PubKey};
use crate::text::{
    chars_of, concat, holds, join, lower, lowered, slice_of, split, split_on, string_of, trim, trimmed,
    is_white, free_of, lower_char, lemma_trim_around, lemma_split_join, lemma_join_chars,
    lemma_join_last, lemma_split_chars,
};

verus! {

pub const DEVICE_PREFIX: &'static str = "sqx-device:";

pub const PAIR_PREFIX: &'static str = "sqx-pair:";

/// The cap on either string, in bytes.
pub const MAX_LEN: usize = 512;

#[derive(Debug, Clone, PartialEq, Eq)]
pub enum PairingError {
    /// Longer than `MAX_LEN` bytes, which no pairing string is.
    TooLong,
    /// Does not start with `sqx-device:`.
    NotADevice,
    /// What follows the prefix is not a key, and why.
    NotAKey(String),
    /// Neither `sqx-pair:…` nor a name@domain.
    NotAPair,
    /// No domain after the `@`.
    NoDomain,
    /// This is not a domain name.
    NotADomain(String),
}

/// A `PairingError` with its words as characters.
pub ghost enum PairingFault {
    TooLong,
    NotADevice,
    NotAKey(Seq<char>),
    NotAPair,
    NoDomain,
    NotADomain(Seq<char>),
}

impl View for PairingError {
    type V = PairingFault;

    open spec fn view(&self) -> PairingFault {
        match self {
            PairingError::TooLong => PairingFault::TooLong,
            PairingError::NotADevice => PairingFault::NotADevice,
            PairingError::NotAKey(why) => PairingFault::NotAKey(why@),
            PairingError::NotAPair => PairingFault::NotAPair,
            PairingError::NoDomain => PairingFault::NoDomain,
            PairingError::NotADomain(d) => PairingFault::NotADomain(d@),
        }
    }
}

/// What a refusal says, in words.
pub open spec fn error_text(e: PairingFault) -> Seq<char> {
    match e {
        PairingFault::TooLong => "longer than 512 bytes, which no pairing string is"@,
        PairingFault::NotADevice => "that is not a device string: it does not start with `sqx-device:`"@,
        PairingFault::NotAKey(why) => "that is not a key: "@ + why,
        PairingFault::NotAPair => "that is not a pairing string: neither `sqx-pair:…` nor a name@domain"@,
        PairingFault::NoDomain => "a pairing string names at least one domain, after the `@`"@,
        PairingFault::NotADomain(d) => "`"@ + d + "` is not a domain name"@,
    }
}

impl PairingError {
    /// The refusal in words, for the person who typed or scanned it.
    pub fn message(&self) -> (r: String)
        ensures
            r@ == error_text(self@),
    {
        match self {
            PairingError::TooLong => String::from_str("longer than 512 bytes, which no pairing string is"),
            PairingError::NotADevice => String::from_str(
                "that is not a device string: it does not start with `sqx-device:`",
            ),
            PairingError::NotAKey(why) => string_of(&concat(&chars_of("that is not a key: "), &chars_of(why.as_str()))),
            PairingError::NotAPair => String::from_str(
                "that is not a pairing string: neither `sqx-pair:…` nor a name@domain",
            ),
            PairingError::NoDomain => String::from_str("a pairing string names at least one domain, after the `@`"),
            PairingError::NotADomain(d) => string_of(
                &concat(&concat(&chars_of("`"), &chars_of(d.as_str())), &chars_of("` is not a domain name")),
            ),
        }
    }
}

/// Whom the phone belongs to.
#[derive(Debug, Clone, PartialEq, Eq)]
pub enum Owner {
    /// The account's key.
    Key(PubKey),
    /// A name, `name@domain`, resolved at the one domain it names.
    Name(String),
}

pub ghost enum OwnerView {
    Key(Seq<u8>),
    Name(Seq<char>),
}

impl View for Owner {
    type V = OwnerView;

    open spec fn view(&self) -> OwnerView {
        match self {
            Owner::Key(k) => OwnerView::Key(k.bytes@),
            Owner::Name(n) => OwnerView::Name(n@),
        }
    }
}

/// A parsed `sqx-pair:` string.
#[derive(Debug, Clone, PartialEq, Eq)]
pub struct Pair {
    pub owner: Owner,
    /// Lower-cased, in the order given, with repeats removed. At least one.
    pub domains: Vec<String>,
}

pub ghost struct PairView {
    pub owner: OwnerView,
    pub domains: Seq<Seq<char>>,
}

pub open spec fn strings(v: Seq<String>) -> Seq<Seq<char>> {
    v.map_values(|s: String| s@)
}

impl View for Pair {
    type V = PairView;

    open spec fn view(&self) -> PairView {
        PairView { owner: self.owner@, domains: strings(self.domains@) }
    }
}

pub open spec fn has_prefix(s: Seq<char>, p: Seq<char>) -> bool {
    p.len() <= s.len() && s.take(p.len() as int) == p
}

/// Where `c` last occurs in `s`.
pub open spec fn last_of(s: Seq<char>, c: char) -> Option<int>
    decreases s.len(),
{
    if s.len() == 0 {
        None
    } else if s.last() == c {
        Some(s.len() - 1)
    } else {
        last_of(s.drop_last(), c)
    }
}

pub open spec fn is_label_char(c: char) -> bool {
    ('a' <= c && c <= 'z') || ('0' <= c && c <= '9') || c == '-'
}

/// One label: `[a-z0-9]([a-z0-9-]*[a-z0-9])?`, at most 63.
pub open spec fn label_ok(s: Seq<char>) -> bool {
    &&& 1 <= s.len() <= 63
    &&& forall|i: int| 0 <= i < s.len() ==> is_label_char(#[trigger] s[i])
    &&& s[0] != '-'
    &&& s.last() != '-'
}

/// A DNS name: labels joined by dots, at least two, at most 253 long.
///
/// Counted in characters; where every label is good every character is
/// ASCII, and where one is not the name fails either way, so this is the
/// byte count's answer too.
pub open spec fn domain_ok(s: Seq<char>) -> bool {
    &&& s.len() <= 253
    &&& split(s, '.').len() >= 2
    &&& forall|i: int| 0 <= i < split(s, '.').len() ==> label_ok(#[trigger] split(s, '.')[i])
}

/// The domains of a pairing string, in order: each trimmed and lowered,
/// empty ones skipped, repeats dropped; or the first that is no domain.
pub open spec fn gather(pieces: Seq<Seq<char>>, acc: Seq<Seq<char>>) -> Result<
    Seq<Seq<char>>,
    Seq<char>,
>
    decreases pieces.len(),
{
    if pieces.len() == 0 {
        Ok(acc)
    } else {
        let d = lower(trim(pieces[0]));
        if d.len() == 0 {
            gather(pieces.drop_first(), acc)
        } else if !domain_ok(d) {
            Err(d)
        } else if acc.contains(d) {
            gather(pieces.drop_first(), acc)
        } else {
            gather(pieces.drop_first(), acc.push(d))
        }
    }
}

/// The domains a registering client names, cleaned as `gather` does but
/// not judged.
pub open spec fn kept(pieces: Seq<Seq<char>>, acc: Seq<Seq<char>>) -> Seq<Seq<char>>
    decreases pieces.len(),
{
    if pieces.len() == 0 {
        acc
    } else {
        let d = lower(trim(pieces[0]));
        if d.len() == 0 || acc.contains(d) {
            kept(pieces.drop_first(), acc)
        } else {
            kept(pieces.drop_first(), acc.push(d))
        }
    }
}

/// What the phone shows for its key.
pub open spec fn device_text(key: Seq<u8>) -> Seq<char> {
    DEVICE_PREFIX@ + base58_text(key)
}

/// What a device string means.
pub open spec fn device_meaning(shown: Seq<char>, too_long: bool) -> Result<Seq<u8>, PairingFault> {
    if too_long {
        Err(PairingFault::TooLong)
    } else {
        let t = trim(shown);
        if !has_prefix(t, DEVICE_PREFIX@) {
            Err(PairingFault::NotADevice)
        } else {
            match key_read(trim(t.skip(DEVICE_PREFIX@.len() as int))) {
                Ok(key) => Ok(key),
                Err(why) => Err(PairingFault::NotAKey(why)),
            }
        }
    }
}

/// What the registering client shows: the account and every domain.
pub open spec fn pair_text(account: Seq<u8>, domains: Seq<Seq<char>>) -> Seq<char> {
    PAIR_PREFIX@ + base58_text(account) + seq!['@'] + join(kept(domains, seq![]), seq![','])
}

/// What a pairing string means.
pub open spec fn pair_meaning(shown: Seq<char>, too_long: bool) -> Result<PairView, PairingFault> {
    if too_long {
        Err(PairingFault::TooLong)
    } else {
        let t = trim(shown);
        let body = trim(
            if has_prefix(t, PAIR_PREFIX@) {
                t.skip(PAIR_PREFIX@.len() as int)
            } else {
                t
            },
        );
        match last_of(body, '@') {
            None => Err(PairingFault::NotAPair),
            Some(at) => {
                let who = trim(body.take(at));
                if who.len() == 0 {
                    Err(PairingFault::NotAPair)
                } else {
                    match gather(split(body.skip(at + 1), ','), seq![]) {
                        Err(d) => Err(PairingFault::NotADomain(d)),
                        Ok(domains) => if domains.len() == 0 {
                            Err(PairingFault::NoDomain)
                        } else {
                            match key_read(who) {
                                Ok(key) => Ok(PairView { owner: OwnerView::Key(key), domains }),
                                Err(_) => {
                                    let name = lower(who);
                                    if domains.len() != 1 || !label_ok(name) {
                                        Err(PairingFault::NotAPair)
                                    } else {
                                        Ok(
                                            PairView {
                                                owner: OwnerView::Name(
                                                    name + seq!['@'] + domains[0],
                                                ),
                                                domains,
                                            },
                                        )
                                    }
                                },
                            }
                        },
                    }
                }
            },
        }
    }
}

pub open spec fn device_result(r: Result<PubKey, PairingError>) -> Result<Seq<u8>, PairingFault> {
    match r {
        Ok(k) => Ok(k.bytes@),
        Err(e) => Err(e@),
    }
}

pub open spec fn pair_result(r: Result<Pair, PairingError>) -> Result<PairView, PairingFault> {
    match r {
        Ok(p) => Ok(p@),
        Err(e) => Err(e@),
    }
}

fn starts_with(s: &Vec<char>, p: &Vec<char>) -> (r: bool)
    ensures
        r == has_prefix(s@, p@),
{
    if p.len() > s.len() {
        return false;
    }
    let mut i: usize = 0;
    while i < p.len()
        invariant
            i <= p.len() <= s.len(),
            forall|k: int| 0 <= k < i ==> s@[k] == p@[k],
        decreases p.len() - i,
    {
        if s[i] != p[i] {
            assert(s@.take(p.len() as int)[i as int] != p@[i as int]);
            return false;
        }
        i = i + 1;
    }
    assert(s@.take(p.len() as int) =~= p@);
    true
}

fn last_index(s: &Vec<char>, c: char) -> (r: Option<usize>)
    ensures
        match r {
            Some(i) => last_of(s@, c) == Some(i as int) && i < s@.len(),
            None => last_of(s@, c) is None,
        },
{
    let mut j: usize = s.len();
    assert(s@.take(j as int) == s@);
    while j > 0
        invariant
            j <= s.len(),
            last_of(s@, c) == last_of(s@.take(j as int), c),
        decreases j,
    {
        assert(s@.take(j as int).drop_last() == s@.take(j - 1));
        if s[j - 1] == c {
            return Some(j - 1);
        }
        j = j - 1;
    }
    None
}

fn label_chars(s: &Vec<char>) -> (r: bool)
    ensures
        r == label_ok(s@),
{
    if s.len() == 0 || s.len() > 63 {
        return false;
    }
    let mut i: usize = 0;
    while i < s.len()
        invariant
            i <= s.len(),
            forall|k: int| 0 <= k < i ==> is_label_char(#[trigger] s@[k]),
        decreases s.len() - i,
    {
        let c = s[i];
        if !(('a' <= c && c <= 'z') || ('0' <= c && c <= '9') || c == '-') {
            return false;
        }
        i = i + 1;
    }
    s[0] != '-' && s[s.len() - 1] != '-'
}

fn domain_chars(s: &Vec<char>) -> (r: bool)
    ensures
        r == domain_ok(s@),
{
    if s.len() > 253 {
        return false;
    }
    let labels = split_on(s, '.');
    let ghost views = labels@.map_values(|p: Vec<char>| p@);
    if labels.len() < 2 {
        return false;
    }
    let mut i: usize = 0;
    while i < labels.len()
        invariant
            i <= labels.len(),
            views == labels@.map_values(|p: Vec<char>| p@),
            views == split(s@, '.'),
            forall|k: int| 0 <= k < i ==> label_ok(#[trigger] views[k]),
        decreases labels.len() - i,
    {
        if !label_chars(&labels[i]) {
            assert(!label_ok(views[i as int]));
            return false;
        }
        i = i + 1;
    }
    true
}

/// One label of a domain name: lower-case letters, digits and hyphens, not
/// starting or ending with a hyphen, at most 63.
pub fn is_label(s: &str) -> (r: bool)
    ensures
        r == label_ok(s@),
{
    label_chars(&chars_of(s))
}

/// A domain name: at least two labels joined by dots, at most 253.
pub fn is_domain(s: &str) -> (r: bool)
    ensures
        r == domain_ok(s@),
{
    domain_chars(&chars_of(s))
}

/// What the phone shows: its device key after `sqx-device:`.
pub fn device_string(device: &PubKey) -> (r: String)
    ensures
        r@ == device_text(device.bytes@),
        r@.len() <= 55,
        encode_utf8(r@).len() == r@.len(),
        device_meaning(r@, encode_utf8(r@).len() as usize > MAX_LEN) == Ok::<Seq<u8>, PairingFault>(device.bytes@),
        forall|w1: Seq<char>, w2: Seq<char>|
            all_white(w1) && all_white(w2) ==> #[trigger] device_meaning(w1 + r@ + w2, false) == Ok::<
                Seq<u8>,
                PairingFault,
            >(device.bytes@),
{
    let key = device.text();
    let shown = String::from_str(DEVICE_PREFIX);
    let r = shown.concat(key.as_str());
    proof {
        assert forall|w1: Seq<char>, w2: Seq<char>| all_white(w1) && all_white(w2) implies #[trigger] device_meaning(
            w1 + r@ + w2,
            false,
        ) == Ok::<Seq<u8>, PairingFault>(device.bytes@) by {
            lemma_device_read_back(key@, device.bytes@, w1, w2);
        }
        reveal_strlit("sqx-device:");
        assert(DEVICE_PREFIX@.len() == 11);
        lemma_device_ascii(key@, r@);
        is_ascii_chars_encode_utf8(r@);
        lemma_device_read_back(key@, device.bytes@, seq![], seq![]);
        assert(seq![] + r@ + seq![] == r@);
    }
    r
}

proof fn lemma_device_ascii(key: Seq<char>, shown: Seq<char>)
    requires
        all_base58(key),
        shown == DEVICE_PREFIX@ + key,
    ensures
        is_ascii_chars(shown),
{
    reveal_strlit("sqx-device:");
    assert forall|i: int| 0 <= i < shown.len() implies '\0' <= #[trigger] shown[i] <= '\u{7f}' by {
        if i >= DEVICE_PREFIX@.len() {
            assert(shown[i] == key[i - DEVICE_PREFIX@.len()]);
            assert(is_base58_char(key[i - DEVICE_PREFIX@.len()]));
        }
    }
}

/// At least one domain, and every one a good domain name: what a pairing
/// string needs to be read back.
pub open spec fn all_domains(ds: Seq<Seq<char>>) -> bool {
    ds.len() > 0 && forall|k: int| 0 <= k < ds.len() ==> domain_ok(#[trigger] ds[k])
}

proof fn lemma_pair_ascii(key: Seq<char>, ds: Seq<Seq<char>>, shown: Seq<char>)
    requires
        all_base58(key),
        all_domains(ds),
        shown == PAIR_PREFIX@ + key + seq!['@'] + join(ds, seq![',']),
    ensures
        is_ascii_chars(shown),
{
    reveal_strlit("sqx-pair:");
    let j = join(ds, seq![',']);
    let n = PAIR_PREFIX@.len() + key.len() + 1;
    assert forall|i: int| 0 <= i < shown.len() implies '\0' <= #[trigger] shown[i] <= '\u{7f}' by {
        if i >= n {
            assert(shown[i] == j[i - n]);
            lemma_join_chars(ds, ',', i - n);
            if j[i - n] != ',' {
                let (a, b) = choose|a: int, b: int|
                    0 <= a < ds.len() && 0 <= b < ds[a].len() && #[trigger] ds[a][b] == j[i - n];
                lemma_domain_chars(ds[a], b);
            }
        } else if i >= PAIR_PREFIX@.len() && i < n - 1 {
            assert(shown[i] == key[i - PAIR_PREFIX@.len()]);
            assert(is_base58_char(key[i - PAIR_PREFIX@.len()]));
        }
    }
}

/// The text a device string offers as its key: what follows the prefix,
/// trimmed.
pub open spec fn device_key_text(shown: Seq<char>) -> Seq<char> {
    trim(trim(shown).skip(DEVICE_PREFIX@.len() as int))
}

/// What a pairing string names before its last `@`, trimmed, if it has one.
pub open spec fn pair_owner_text(shown: Seq<char>) -> Option<Seq<char>> {
    let t = trim(shown);
    let body = trim(
        if has_prefix(t, PAIR_PREFIX@) {
            t.skip(PAIR_PREFIX@.len() as int)
        } else {
            t
        },
    );
    match last_of(body, '@') {
        None => None,
        Some(at) => Some(trim(body.take(at))),
    }
}

/// The key a device string shows.
pub fn parse_device(shown: &str) -> (r: Result<PubKey, PairingError>)
    ensures
        device_result(r) == device_meaning(shown@, shown.spec_bytes().len() as usize > MAX_LEN),
        !all_base58(device_key_text(shown@)) ==> r is Err,
{
    if shown.len() > MAX_LEN {
        return Err(PairingError::TooLong);
    }
    let t = trimmed(&chars_of(shown));
    let prefix = chars_of(DEVICE_PREFIX);
    if !starts_with(&t, &prefix) {
        return Err(PairingError::NotADevice);
    }
    assert(t@.subrange(prefix@.len() as int, t@.len() as int) == t@.skip(prefix@.len() as int));
    let key = trimmed(&slice_of(&t, prefix.len(), t.len()));
    let text = string_of(&key);
    assert(key@ == device_key_text(shown@));
    match PubKey::parse(text.as_str()) {
        Ok(k) => Ok(k),
        Err(why) => Err(PairingError::NotAKey(why)),
    }
}

fn join_with(pieces: &Vec<Vec<char>>, sep: char) -> (r: Vec<char>)
    ensures
        r@ == join(pieces@.map_values(|p: Vec<char>| p@), seq![sep]),
{
    let ghost views = pieces@.map_values(|p: Vec<char>| p@);
    let mut out: Vec<char> = Vec::new();
    let mut i: usize = 0;
    while i < pieces.len()
        invariant
            i <= pieces.len(),
            views == pieces@.map_values(|p: Vec<char>| p@),
            out@ == join(views.take(i as int), seq![sep]),
        decreases pieces.len() - i,
    {
        assert(views.take(i + 1).drop_last() == views.take(i as int));
        if i > 0 {
            out.push(sep);
        }
        let mut j: usize = 0;
        let ghost start = out@;
        while j < pieces[i].len()
            invariant
                i < pieces.len(),
                j <= pieces[i as int]@.len(),
                out@ == start + pieces[i as int]@.take(j as int),
            decreases pieces[i as int]@.len() - j,
        {
            out.push(pieces[i][j]);
            j = j + 1;
        }
        assert(pieces[i as int]@.take(j as int) == pieces[i as int]@);
        i = i + 1;
    }
    assert(views.take(pieces.len() as int) == views);
    out
}

fn to_strings(v: &Vec<Vec<char>>) -> (r: Vec<String>)
    ensures
        strings(r@) == v@.map_values(|p: Vec<char>| p@),
{
    let mut out: Vec<String> = Vec::new();
    let mut i: usize = 0;
    while i < v.len()
        invariant
            i <= v.len(),
            out@.len() == i,
            forall|k: int| 0 <= k < i ==> #[trigger] out@[k]@ == v@[k]@,
        decreases v.len() - i,
    {
        out.push(string_of(&v[i]));
        i = i + 1;
    }
    assert(strings(out@) =~= v@.map_values(|p: Vec<char>| p@));
    out
}

/// What the registering client shows: the account and every exchange it is
/// at, lower-cased, empty ones skipped, repeats removed.
pub fn pair_string(account: &PubKey, domains: &[String]) -> (r: String)
    ensures
        r@ == pair_text(account.bytes@, strings(domains@)),
        r@.len() <= 54 + join(kept(strings(domains@), seq![]), seq![',']).len(),
        all_domains(kept(strings(domains@), seq![])) ==> encode_utf8(r@).len() == r@.len(),
        all_domains(kept(strings(domains@), seq![])) ==> pair_meaning(r@, encode_utf8(r@).len() as usize > MAX_LEN)
            == if encode_utf8(r@).len() as usize > MAX_LEN {
            Err::<PairView, PairingFault>(PairingFault::TooLong)
        } else {
            Ok::<PairView, PairingFault>(
                PairView { owner: OwnerView::Key(account.bytes@), domains: kept(strings(domains@), seq![]) },
            )
        },
        all_domains(kept(strings(domains@), seq![])) ==> forall|w1: Seq<char>, w2: Seq<char>|
            all_white(w1) && all_white(w2) ==> #[trigger] pair_meaning(w1 + r@ + w2, false) == Ok::<
                PairView,
                PairingFault,
            >(PairView { owner: OwnerView::Key(account.bytes@), domains: kept(strings(domains@), seq![]) }),
{
    let ghost all = strings(domains@);
    let mut seen: Vec<Vec<char>> = Vec::new();
    let mut i: usize = 0;
    assert(all.skip(0) == all);
    assert(seen@.map_values(|p: Vec<char>| p@) =~= seq![]);
    while i < domains.len()
        invariant
            i <= domains.len(),
            all == strings(domains@),
            kept(all, seq![]) == kept(all.skip(i as int), seen@.map_values(|p: Vec<char>| p@)),
        decreases domains.len() - i,
    {
        let ghost acc = seen@.map_values(|p: Vec<char>| p@);
        assert(all.skip(i as int).drop_first() == all.skip(i + 1));
        assert(all.skip(i as int)[0] == domains@[i as int]@);
        let d = lowered(&trimmed(&chars_of(domains[i].as_str())));
        if d.len() > 0 && !holds(&seen, &d) {
            seen.push(d);
            assert(seen@.map_values(|p: Vec<char>| p@) =~= acc.push(d@));
        }
        i = i + 1;
    }
    assert(all.skip(domains.len() as int).len() == 0);
    let joined = string_of(&join_with(&seen, ','));
    let key = account.text();
    let shown = String::from_str(PAIR_PREFIX);
    let shown = shown.concat(key.as_str());
    let shown = shown.concat("@");
    proof {
        reveal_strlit("@");
    }
    let r = shown.concat(joined.as_str());
    proof {
        let ds = kept(strings(domains@), seq![]);
        assert("@"@ == seq!['@']);
        assert(ds == seen@.map_values(|p: Vec<char>| p@));
        assert(joined@ == join(ds, seq![',']));
        assert(r@ == PAIR_PREFIX@ + key@ + seq!['@'] + join(ds, seq![',']));
        reveal_strlit("sqx-pair:");
        assert(PAIR_PREFIX@.len() == 9);
        if all_domains(ds) {
            assert forall|w1: Seq<char>, w2: Seq<char>| all_white(w1) && all_white(w2) implies #[trigger] pair_meaning(
                w1 + r@ + w2,
                false,
            ) == Ok::<PairView, PairingFault>(PairView { owner: OwnerView::Key(account.bytes@), domains: ds }) by {
                lemma_pair_read_back(key@, account.bytes@, strings(domains@), w1, w2);
            }
            lemma_pair_ascii(key@, ds, r@);
            is_ascii_chars_encode_utf8(r@);
            lemma_pair_read_back(key@, account.bytes@, strings(domains@), seq![], seq![]);
            assert(seq![] + r@ + seq![] == r@);
        }
    }
    r
}

/// What the phone read off the registering client, or what a person typed:
/// `sqx-pair:<key>@<domain>[,<domain>]*`, the same with a name in place of
/// the key, or a bare `name@domain`. A key is tried before a name.
#[verifier::loop_isolation(false)]
pub fn parse_pair(shown: &str) -> (r: Result<Pair, PairingError>)
    ensures
        pair_result(r) == pair_meaning(shown@, shown.spec_bytes().len() as usize > MAX_LEN),
        (r matches Ok(p) && p.owner is Key) ==> (pair_owner_text(shown@) matches Some(w) && all_base58(w)),
{
    if shown.len() > MAX_LEN {
        return Err(PairingError::TooLong);
    }
    let t = trimmed(&chars_of(shown));
    let prefix = chars_of(PAIR_PREFIX);
    assert(t@.subrange(prefix@.len() as int, t@.len() as int) == t@.skip(prefix@.len() as int));
    let body = if starts_with(&t, &prefix) {
        trimmed(&slice_of(&t, prefix.len(), t.len()))
    } else {
        trimmed(&t)
    };
    let ghost tv = trim(shown@);
    let ghost bv = trim(
        if has_prefix(tv, PAIR_PREFIX@) {
            tv.skip(PAIR_PREFIX@.len() as int)
        } else {
            tv
        },
    );
    assert(body@ == bv);
    let found = last_index(&body, '@');
    if found.is_none() {
        return Err(PairingError::NotAPair);
    }
    let at = found.unwrap();
    assert(at < body@.len());
    assert(last_of(bv, '@') == Some(at as int));
    assert(body@.subrange(0, at as int) == body@.take(at as int));
    let who = trimmed(&slice_of(&body, 0, at));
    if who.len() == 0 {
        return Err(PairingError::NotAPair);
    }
    assert(body@.subrange(0, at as int) == body@.take(at as int));
    let n = body.len();
    assert(at < n);
    let where_ = slice_of(&body, at + 1, n);
    assert(where_@ == body@.skip(at + 1));
    let pieces = split_on(&where_, ',');
    let ghost all = pieces@.map_values(|p: Vec<char>| p@);
    let mut domains: Vec<Vec<char>> = Vec::new();
    let mut i: usize = 0;
    assert(all.skip(0) == all);
    assert(domains@.map_values(|p: Vec<char>| p@) =~= seq![]);
    while i < pieces.len()
        invariant
            i <= pieces.len(),
            all == pieces@.map_values(|p: Vec<char>| p@),
            all == split(bv.skip(at + 1), ','),
            gather(all, seq![]) == gather(
                all.skip(i as int),
                domains@.map_values(|p: Vec<char>| p@),
            ),
        decreases pieces.len() - i,
    {
        let ghost acc = domains@.map_values(|p: Vec<char>| p@);
        assert(all.skip(i as int).drop_first() == all.skip(i + 1));
        assert(all.skip(i as int)[0] == pieces@[i as int]@);
        let d = lowered(&trimmed(&pieces[i]));
        if d.len() > 0 {
            if !domain_chars(&d) {
                assert(gather(all.skip(i as int), acc) == Err::<Seq<Seq<char>>, Seq<char>>(d@));
                assert(gather(split(bv.skip(at + 1), ','), seq![]) == Err::<Seq<Seq<char>>, Seq<char>>(d@));
                return Err(PairingError::NotADomain(string_of(&d)));
            }
            if !holds(&domains, &d) {
                domains.push(d);
                assert(domains@.map_values(|p: Vec<char>| p@) =~= acc.push(d@));
            }
        }
        i = i + 1;
    }
    assert(all.skip(pieces.len() as int).len() == 0);
    assert(gather(split(bv.skip(at + 1), ','), seq![]) == Ok::<Seq<Seq<char>>, Seq<char>>(domains@.map_values(|p: Vec<char>| p@)));
    assert(who@ == trim(bv.take(at as int)));
    if domains.len() == 0 {
        return Err(PairingError::NoDomain);
    }
    let ghost dv = domains@.map_values(|p: Vec<char>| p@);
    let ghost meaning = pair_meaning(shown@, shown.spec_bytes().len() as usize > MAX_LEN);
    let who_text = string_of(&who);
    let names = to_strings(&domains);
    match PubKey::parse(who_text.as_str()) {
        Ok(key) => {
            assert(meaning == Ok::<PairView, PairingFault>(PairView { owner: OwnerView::Key(key.bytes@), domains: dv }));
            assert(pair_owner_text(shown@) == Some(who@));
            Ok(Pair { owner: Owner::Key(key), domains: names })
        },
        Err(_) => {
            let name = lowered(&who);
            if domains.len() != 1 || !label_chars(&name) {
                return Err(PairingError::NotAPair);
            }
            let mut full = name;
            full.push('@');
            let owner = crate::text::concat(&full, &domains[0]);
            assert(owner@ == lower(who@) + seq!['@'] + dv[0]);
            assert(meaning == Ok::<PairView, PairingFault>(PairView { owner: OwnerView::Name(owner@), domains: dv }));
            Ok(Pair { owner: Owner::Name(string_of(&owner)), domains: names })
        },
    }
}

pub open spec fn all_white(w: Seq<char>) -> bool {
    forall|i: int| 0 <= i < w.len() ==> is_white(#[trigger] w[i])
}

proof fn lemma_base58_not_white(k: Seq<char>)
    requires
        k.len() > 0,
        all_base58(k),
    ensures
        !is_white(k[0]),
        !is_white(k.last()),
        free_of(k, '@'),
{
    assert(is_base58_char(k[0]));
    assert(is_base58_char(k[k.len() - 1]));
    assert forall|i: int| 0 <= i < k.len() implies k[i] != '@' by {
        assert(is_base58_char(k[i]));
    }
}

/// **A device string reads back as the key it shows**, white space around it
/// and all.
proof fn lemma_device_read_back(key: Seq<char>, bytes: Seq<u8>, w1: Seq<char>, w2: Seq<char>)
    requires
        key.len() > 0,
        all_base58(key),
        key_read(key) == Ok::<Seq<u8>, Seq<char>>(bytes),
        all_white(w1),
        all_white(w2),
    ensures
        device_meaning(w1 + (DEVICE_PREFIX@ + key) + w2, false) == Ok::<Seq<u8>, PairingFault>(bytes),
{
    reveal_strlit("sqx-device:");
    let p = DEVICE_PREFIX@;
    let x = p + key;
    lemma_base58_not_white(key);
    assert(x[0] == p[0]);
    assert(x.last() == key.last());
    lemma_trim_around(w1, x, w2);
    assert(x.take(p.len() as int) == p);
    assert(x.skip(p.len() as int) == key);
    assert(trim(key) == key) by {
        lemma_trim_around(Seq::<char>::empty(), key, Seq::<char>::empty());
        assert(Seq::<char>::empty() + key + Seq::<char>::empty() == key);
    }
}

/// **A device string forgives white space**, around it and between its
/// prefix and its key: for a key's text `key` -- base58, which `key_read`
/// reads as `bytes` -- and any runs of white space `w1`, `w2`, `w3`, the text
/// `w1` + `sqx-device:` + `w2` + `key` + `w3` reads as `bytes`. So the
/// scheme and the key typed on two lines, as the Phone tab shows them, read
/// back as the key.
pub proof fn a_device_string_forgives_white_space(
    key: Seq<char>,
    bytes: Seq<u8>,
    w1: Seq<char>,
    w2: Seq<char>,
    w3: Seq<char>,
)
    requires
        key.len() > 0,
        all_base58(key),
        key_read(key) == Ok::<Seq<u8>, Seq<char>>(bytes),
        all_white(w1),
        all_white(w2),
        all_white(w3),
    ensures
        device_meaning(w1 + DEVICE_PREFIX@ + w2 + key + w3, false) == Ok::<Seq<u8>, PairingFault>(bytes),
{
    reveal_strlit("sqx-device:");
    let p = DEVICE_PREFIX@;
    let x = p + w2 + key;
    lemma_base58_not_white(key);
    assert(x[0] == p[0]);
    assert(x.last() == key.last());
    assert(w1 + DEVICE_PREFIX@ + w2 + key + w3 == w1 + x + w3);
    lemma_trim_around(w1, x, w3);
    assert(x.take(p.len() as int) == p);
    assert(x.skip(p.len() as int) == w2 + key);
    lemma_trim_around(w2, key, Seq::<char>::empty());
    assert(w2 + key + Seq::<char>::empty() == w2 + key);
}

/// **A name is one label**: a pairing string read as a name is read from
/// the text before its last `@`, which is no key, lower-cased, and a single
/// label -- letters, digits and inner hyphens, no dot -- at one domain; a
/// text before the `@` that is no key and whose lower-cased form is no label
/// is refused.
pub proof fn a_name_is_one_label(shown: Seq<char>, too_long: bool)
    ensures
        (pair_meaning(shown, too_long) is Ok && pair_meaning(shown, too_long)->Ok_0.owner is Name) ==> {
            let v = pair_meaning(shown, too_long)->Ok_0;
            let w = pair_owner_text(shown)->Some_0;
            &&& pair_owner_text(shown) is Some
            &&& key_read(w) is Err
            &&& label_ok(lower(w))
            &&& v.domains.len() == 1
            &&& v.owner == OwnerView::Name(lower(w) + seq!['@'] + v.domains[0])
        },
        (pair_owner_text(shown) is Some && key_read(pair_owner_text(shown)->Some_0) is Err && !label_ok(
            lower(pair_owner_text(shown)->Some_0),
        )) ==> pair_meaning(shown, too_long) is Err,
{
}

/// Every character of a good domain name is a label's or a dot.
proof fn lemma_domain_chars(d: Seq<char>, k: int)
    requires
        domain_ok(d),
        0 <= k < d.len(),
    ensures
        is_label_char(d[k]) || d[k] == '.',
{
    lemma_split_chars(d, '.', k);
    if d[k] != '.' {
        let (i, j) = choose|i: int, j: int|
            0 <= i < split(d, '.').len() && 0 <= j < split(d, '.')[i].len() && #[trigger] split(d, '.')[i][j] == d[k];
        assert(label_ok(split(d, '.')[i]));
    }
}

/// A good domain name is already trimmed and lowered, and holds no comma,
/// no `@` and no white space.
proof fn lemma_domain_clean(d: Seq<char>)
    requires
        domain_ok(d),
    ensures
        d.len() > 0,
        trim(d) == d,
        lower(d) == d,
        free_of(d, ','),
        free_of(d, '@'),
        !is_white(d.last()),
{
    if d.len() == 0 {
        assert(split(d, '.') == seq![Seq::<char>::empty()]);
    }
    assert forall|k: int| 0 <= k < d.len() implies !is_white(#[trigger] d[k]) && d[k] != ',' && d[k]
        != '@' && lower_char(d[k]) == d[k] by {
        lemma_domain_chars(d, k);
    }
    assert(!is_white(d[0]));
    assert(!is_white(d[d.len() - 1]));
    lemma_trim_around(Seq::<char>::empty(), d, Seq::<char>::empty());
    assert(Seq::<char>::empty() + d + Seq::<char>::empty() == d);
    assert(lower(d) =~= d);
}

pub open spec fn distinct(ds: Seq<Seq<char>>) -> bool {
    forall|i: int, j: int| 0 <= i < j < ds.len() ==> ds[i] != ds[j]
}

/// What `kept` adds is never already there.
proof fn lemma_kept_distinct(ds: Seq<Seq<char>>, acc: Seq<Seq<char>>)
    requires
        distinct(acc),
    ensures
        distinct(kept(ds, acc)),
        acc.len() <= kept(ds, acc).len(),
        kept(ds, acc).take(acc.len() as int) == acc,
    decreases ds.len(),
{
    if ds.len() > 0 {
        let d = lower(trim(ds[0]));
        if d.len() == 0 || acc.contains(d) {
            lemma_kept_distinct(ds.drop_first(), acc);
        } else {
            assert forall|i: int, j: int| 0 <= i < j < acc.push(d).len() implies acc.push(d)[i]
                != acc.push(d)[j] by {
                if j == acc.len() {
                    assert(acc[i] != d);
                }
            }
            lemma_kept_distinct(ds.drop_first(), acc.push(d));
            assert(kept(ds, acc).take(acc.len() as int + 1).take(acc.len() as int) == kept(ds, acc).take(
                acc.len() as int,
            ));
            assert(acc.push(d).take(acc.len() as int) == acc);
        }
    }
}

/// Domains that are already clean and distinct gather to themselves.
proof fn lemma_gather_clean(ds: Seq<Seq<char>>, i: int)
    requires
        0 <= i <= ds.len(),
        distinct(ds),
        forall|k: int| 0 <= k < ds.len() ==> domain_ok(#[trigger] ds[k]),
    ensures
        gather(ds.skip(i), ds.take(i)) == Ok::<Seq<Seq<char>>, Seq<char>>(ds),
    decreases ds.len() - i,
{
    if i == ds.len() {
        assert(ds.take(i) == ds);
    } else {
        let d = ds[i];
        lemma_domain_clean(d);
        assert(ds.skip(i)[0] == d);
        assert(ds.skip(i).drop_first() == ds.skip(i + 1));
        assert(!ds.take(i).contains(d)) by {
            if ds.take(i).contains(d) {
                let j = choose|j: int| 0 <= j < i && ds.take(i)[j] == d;
                assert(ds[j] == ds[i]);
            }
        }
        assert(ds.take(i).push(d) == ds.take(i + 1));
        lemma_gather_clean(ds, i + 1);
    }
}

/// Where the last `@` is, when none follows it.
proof fn lemma_last_at(k: Seq<char>, j: Seq<char>)
    requires
        free_of(j, '@'),
    ensures
        last_of(k + seq!['@'] + j, '@') == Some(k.len() as int),
    decreases j.len(),
{
    if j.len() == 0 {
        assert(k + seq!['@'] + j == k.push('@'));
        assert(k.push('@').last() == '@');
    } else {
        let s = k + seq!['@'] + j;
        assert(s.drop_last() == k + seq!['@'] + j.drop_last());
        assert(s.last() == j.last());
        assert(j.last() == j[j.len() - 1]);
        lemma_last_at(k, j.drop_last());
    }
}

/// **A pairing string reads back as the account and the domains it was
/// written from**, lowered, without repeats, white space around it and all
/// -- when every domain given is one.
#[verifier::rlimit(100)]
#[verifier::spinoff_prover]
proof fn lemma_pair_read_back(
    key: Seq<char>,
    bytes: Seq<u8>,
    domains: Seq<Seq<char>>,
    w1: Seq<char>,
    w2: Seq<char>,
)
    requires
        key.len() > 0,
        all_base58(key),
        key_read(key) == Ok::<Seq<u8>, Seq<char>>(bytes),
        kept(domains, seq![]).len() > 0,
        forall|k: int| 0 <= k < kept(domains, seq![]).len() ==> domain_ok(#[trigger] kept(domains, seq![])[k]),
        all_white(w1),
        all_white(w2),
    ensures
        pair_meaning(w1 + (PAIR_PREFIX@ + key + seq!['@'] + join(kept(domains, seq![]), seq![','])) + w2, false)
            == Ok::<PairView, PairingFault>(
            PairView { owner: OwnerView::Key(bytes), domains: kept(domains, seq![]) },
        ),
{
    reveal_strlit("sqx-pair:");
    let p = PAIR_PREFIX@;
    let ds = kept(domains, seq![]);
    let j = join(ds, seq![',']);
    let body = key + seq!['@'] + j;
    let x = p + body;
    assert(x == PAIR_PREFIX@ + key + seq!['@'] + j);
    lemma_base58_not_white(key);
    lemma_kept_distinct(domains, seq![]);
    lemma_domain_clean(ds.last());
    lemma_join_last(ds, seq![',']);
    assert forall|k: int| 0 <= k < ds.len() implies free_of(#[trigger] ds[k], ',') && free_of(ds[k], '@') by {
        lemma_domain_clean(ds[k]);
    }
    assert(free_of(j, '@')) by {
        assert forall|k: int| 0 <= k < j.len() implies j[k] != '@' by {
            lemma_join_chars(ds, ',', k);
            if j[k] != ',' {
                let (a, b) = choose|a: int, b: int|
                    0 <= a < ds.len() && 0 <= b < ds[a].len() && #[trigger] ds[a][b] == j[k];
                assert(free_of(ds[a], '@'));
            }
        }
    }
    assert(x[0] == p[0]);
    assert(x.last() == j.last());
    lemma_trim_around(w1, x, w2);
    assert(x.take(p.len() as int) == p);
    assert(x.skip(p.len() as int) == body);
    assert(body[0] == key[0]);
    assert(body.last() == j.last());
    lemma_trim_around(Seq::<char>::empty(), body, Seq::<char>::empty());
    assert(Seq::<char>::empty() + body + Seq::<char>::empty() == body);
    lemma_last_at(key, j);
    assert(body.take(key.len() as int) == key);
    assert(body.skip(key.len() as int + 1) == j);
    lemma_trim_around(Seq::<char>::empty(), key, Seq::<char>::empty());
    assert(Seq::<char>::empty() + key + Seq::<char>::empty() == key);
    lemma_split_join(ds, ',');
    lemma_gather_clean(ds, 0);
    assert(ds.skip(0) == ds);
    assert(ds.take(0) == Seq::<Seq<char>>::empty());
}

} // verus!
