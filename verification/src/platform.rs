//! What the Rust side asks of the phone's glue, and what it keeps of what the
//! glue says back.
//!
//! Every call into the glue is described here as plain values -- which
//! class, which static method, its signature, its arguments -- and made by
//! the platform layer, which holds the virtual machine. Every class named is
//! one the glue has.
use vstd::prelude::*;

use crate::channel::{hex, hex_text};
use crate::text::{chars_of, concat, same, slice_of, string_of};
use crate::notify::Notification;
use crate::window::Ring;

verus! {

/// The glue's package, as JNI names classes.
pub const PACKAGE: &'static str = "org/squic/sigil";

/// The classes of the glue that Rust calls.
pub open spec fn glue(class: Seq<char>) -> bool {
    ||| class == "Notifier"@
    ||| class == "CallService"@
    ||| class == "Audio"@
    ||| class == "ReachService"@
    ||| class == "Vault"@
    ||| class == "Files"@
    ||| class == "Endpoint"@
}

pub const CONTEXT_STRING_5_INT_BOOL: &'static str = "(Landroid/content/Context;Ljava/lang/String;Ljava/lang/String;Ljava/lang/String;Ljava/lang/String;Ljava/lang/String;IZ)V";

pub const CONTEXT_STRING_4: &'static str = "(Landroid/content/Context;Ljava/lang/String;Ljava/lang/String;Ljava/lang/String;Ljava/lang/String;)V";

/// One argument of a call into the glue.
#[derive(Debug, Clone, PartialEq, Eq)]
pub enum Arg {
    /// The application context.
    Context,
    Text(String),
    /// A `null` string.
    Null,
    Int(i32),
    Flag(bool),
    Bytes(Vec<u8>),
}

/// A static method of one of the glue's classes, and what to pass it.
#[derive(Debug, Clone, PartialEq, Eq)]
pub struct GlueCall {
    pub class: &'static str,
    pub method: &'static str,
    pub signature: &'static str,
    pub args: Vec<Arg>,
}

/// What a call into the glue answers.
#[derive(Debug, Clone, Copy, PartialEq, Eq, Structural)]
pub enum Returns {
    /// `V`: nothing.
    Nothing,
    /// `Z`: a boolean.
    Flag,
    /// `Ljava/lang/String;`: a string, or `null`.
    Text,
    /// `[B`: bytes, or `null`.
    Bytes,
}

pub open spec fn ends_in(s: Seq<char>, tail: Seq<char>) -> bool {
    tail.len() <= s.len() && s.skip(s.len() - tail.len()) == tail
}

pub open spec fn returns_of(signature: Seq<char>) -> Returns {
    if ends_in(signature, ")Z"@) {
        Returns::Flag
    } else if ends_in(signature, ")Ljava/lang/String;"@) {
        Returns::Text
    } else if ends_in(signature, ")[B"@) {
        Returns::Bytes
    } else {
        Returns::Nothing
    }
}

fn ends_with(s: &Vec<char>, tail: &str) -> (r: bool)
    ensures
        r == ends_in(s@, tail@),
{
    let t = chars_of(tail);
    if t.len() > s.len() {
        return false;
    }
    let end = slice_of(s, s.len() - t.len(), s.len());
    assert(end@ == s@.skip(s@.len() - t@.len()));
    same(&end, &t)
}

impl GlueCall {
    /// Every call names a class of the glue.
    pub open spec fn wf(&self) -> bool {
        glue(self.class@)
    }

    /// What the call answers, as its signature's return type says.
    pub fn answers(&self) -> (r: Returns)
        ensures
            r == returns_of(self.signature@),
    {
        let sig = chars_of(self.signature);
        if ends_with(&sig, ")Z") {
            Returns::Flag
        } else if ends_with(&sig, ")Ljava/lang/String;") {
            Returns::Text
        } else if ends_with(&sig, ")[B") {
            Returns::Bytes
        } else {
            Returns::Nothing
        }
    }

    /// The class as JNI finds it: under the glue's package.
    pub fn class_path(&self) -> (r: String)
        ensures
            r@ == PACKAGE@ + "/"@ + self.class@,
    {
        string_of(&concat(&concat(&chars_of(PACKAGE), &chars_of("/")), &chars_of(self.class)))
    }
}

fn text(s: &str) -> (a: Arg)
    ensures
        a matches Arg::Text(t) && t@ == s@,
{
    Arg::Text(String::from_str(s))
}

/// A count as Java's `int`: as it is, or `i32::MAX` if larger.
pub fn java_int(n: usize) -> (r: i32)
    ensures
        r == if n > i32::MAX {
            i32::MAX as int
        } else {
            n as int
        },
{
    if n > 2147483647 {
        2147483647
    } else {
        n as i32
    }
}

/// A `Notifier.message` call: a message notification for `identity` at
/// `exchange`, about `channel` (hex) or none, titled, with a body, standing
/// for `count` arrivals, with sound or without.
pub open spec fn is_message(
    call: GlueCall,
    identity: Seq<char>,
    exchange: Seq<char>,
    channel: Option<Seq<u8>>,
    title: Seq<char>,
    body: Seq<char>,
    count: usize,
    sound: bool,
) -> bool {
    &&& call.wf()
    &&& call.class@ == "Notifier"@
    &&& call.method@ == "message"@
    &&& call.signature@ == CONTEXT_STRING_5_INT_BOOL@
    &&& call.args@.len() == 8
    &&& call.args@[0] == Arg::Context
    &&& call.args@[1] matches Arg::Text(t) && t@ == identity
    &&& call.args@[2] matches Arg::Text(t) && t@ == exchange
    &&& match channel {
        Some(c) => call.args@[3] matches Arg::Text(t) && t@ == hex_text(c),
        None => call.args@[3] == Arg::Null,
    }
    &&& call.args@[4] matches Arg::Text(t) && t@ == title
    &&& call.args@[5] matches Arg::Text(t) && t@ == body
    &&& call.args@[6] == Arg::Int(java_int_spec(count))
    &&& call.args@[7] == Arg::Flag(sound)
}

/// A `Notifier.ring` call: a call presented for `identity` at `exchange`, in
/// `channel` (hex), from `from`.
pub open spec fn is_ring(call: GlueCall, identity: Seq<char>, exchange: Seq<char>, channel: Seq<u8>, from: Seq<char>) -> bool {
    &&& call.wf()
    &&& call.class@ == "Notifier"@
    &&& call.method@ == "ring"@
    &&& call.signature@ == CONTEXT_STRING_4@
    &&& call.args@.len() == 5
    &&& call.args@[0] == Arg::Context
    &&& call.args@[1] matches Arg::Text(t) && t@ == identity
    &&& call.args@[2] matches Arg::Text(t) && t@ == exchange
    &&& call.args@[3] matches Arg::Text(t) && t@ == hex_text(channel)
    &&& call.args@[4] matches Arg::Text(t) && t@ == from
}

/// A `Notifier.endRing` call for `channel` (hex).
pub open spec fn is_end_ring(call: GlueCall, channel: Seq<u8>) -> bool {
    &&& call.wf()
    &&& call.class@ == "Notifier"@
    &&& call.method@ == "endRing"@
    &&& call.signature@ == "(Landroid/content/Context;Ljava/lang/String;)V"@
    &&& call.args@.len() == 2
    &&& call.args@[0] == Arg::Context
    &&& call.args@[1] matches Arg::Text(t) && t@ == hex_text(channel)
}

/// `Notifier.message`: post one message notification.
pub fn post_message(
    identity: &str,
    exchange: &str,
    channel: Option<&[u8; 32]>,
    title: &str,
    body: &str,
    count: usize,
    sound: bool,
) -> (call: GlueCall)
    ensures
        is_message(
            call,
            identity@,
            exchange@,
            match channel {
                Some(c) => Some(c@),
                None => None,
            },
            title@,
            body@,
            count,
            sound,
        ),
{
    let mut args: Vec<Arg> = Vec::new();
    args.push(Arg::Context);
    args.push(text(identity));
    args.push(text(exchange));
    args.push(
        match channel {
            Some(c) => Arg::Text(hex(c)),
            None => Arg::Null,
        },
    );
    args.push(text(title));
    args.push(text(body));
    args.push(Arg::Int(java_int(count)));
    args.push(Arg::Flag(sound));
    GlueCall { class: "Notifier", method: "message", signature: CONTEXT_STRING_5_INT_BOOL, args }
}

pub open spec fn java_int_spec(n: usize) -> i32 {
    if n > i32::MAX {
        i32::MAX
    } else {
        n as i32
    }
}

/// `Notifier.ring`: present a call.
pub fn post_ring(identity: &str, exchange: &str, channel: &[u8; 32], from: &str) -> (call: GlueCall)
    ensures
        is_ring(call, identity@, exchange@, channel@, from@),
{
    let mut args: Vec<Arg> = Vec::new();
    args.push(Arg::Context);
    args.push(text(identity));
    args.push(text(exchange));
    args.push(Arg::Text(hex(channel)));
    args.push(text(from));
    GlueCall { class: "Notifier", method: "ring", signature: CONTEXT_STRING_4, args }
}

/// `Notifier.endRing`: take a ring off the shade.
pub fn end_ring(channel: &[u8; 32]) -> (call: GlueCall)
    ensures
        is_end_ring(call, channel@),
{
    let mut args: Vec<Arg> = Vec::new();
    args.push(Arg::Context);
    args.push(Arg::Text(hex(channel)));
    GlueCall {
        class: "Notifier",
        method: "endRing",
        signature: "(Landroid/content/Context;Ljava/lang/String;)V",
        args,
    }
}

/// A `CallService.begin` call: a call with `with`, held by `identity`.
pub open spec fn is_begin_call(call: GlueCall, with: Seq<char>, identity: Seq<char>) -> bool {
    &&& call.wf()
    &&& call.class@ == "CallService"@
    &&& call.method@ == "begin"@
    &&& call.signature@ == "(Landroid/content/Context;Ljava/lang/String;Ljava/lang/String;)V"@
    &&& call.args@.len() == 3
    &&& call.args@[0] == Arg::Context
    &&& call.args@[1] matches Arg::Text(t) && t@ == with
    &&& call.args@[2] matches Arg::Text(t) && t@ == identity
}

/// A `CallService.end` call.
pub open spec fn is_end_call(call: GlueCall) -> bool {
    &&& call.wf()
    &&& call.class@ == "CallService"@
    &&& call.method@ == "end"@
    &&& call.signature@ == "(Landroid/content/Context;)V"@
    &&& call.args@ == seq![Arg::Context]
}

/// `CallService.begin`: a foreground service for a call, naming whom it is
/// with and which identity holds it.
pub fn begin_call(with: &str, identity: &str) -> (call: GlueCall)
    ensures
        is_begin_call(call, with@, identity@),
{
    let mut args: Vec<Arg> = Vec::new();
    args.push(Arg::Context);
    args.push(text(with));
    args.push(text(identity));
    GlueCall {
        class: "CallService",
        method: "begin",
        signature: "(Landroid/content/Context;Ljava/lang/String;Ljava/lang/String;)V",
        args,
    }
}

/// `CallService.end`: the call is over.
pub fn end_call() -> (call: GlueCall)
    ensures
        is_end_call(call),
{
    let mut args: Vec<Arg> = Vec::new();
    args.push(Arg::Context);
    GlueCall { class: "CallService", method: "end", signature: "(Landroid/content/Context;)V", args }
}

/// A call is up (with whom, and which identity holds it) or none is: the
/// service that keeps the process alive through it is started or stopped.
pub fn call_service(live: Option<(&str, &str)>) -> (call: GlueCall)
    ensures
        match live {
            Some((with, identity)) => is_begin_call(call, with@, identity@),
            None => is_end_call(call),
        },
{
    match live {
        Some((with, identity)) => begin_call(with, identity),
        None => end_call(),
    }
}

/// Where a notice leads when pressed: the conversation, at an exchange, for
/// an identity (its key's text).
#[derive(Debug, Clone, PartialEq, Eq)]
pub struct Target {
    pub identity: String,
    pub exchange: String,
    pub channel: [u8; 32],
}

/// What a notice sounds like.
#[derive(Debug, Clone, Copy, PartialEq, Eq, Structural)]
pub enum Sound {
    Silent,
    Message,
    Ring,
}

/// What the running client asks to be said: a ring in a conversation is
/// presented as a call, **named by the notice's body** -- the conversation
/// and who is calling -- not by its summary, which for a ring is a fixed
/// phrase; anything else is one message notification, with sound unless
/// the notice is silent. A notice with no target names no one.
pub fn notice(target: Option<&Target>, sound: Sound, summary: &str, body: &str) -> (call: GlueCall)
    ensures
        match target {
            Some(t) => if sound == Sound::Ring {
                is_ring(call, t.identity@, t.exchange@, t.channel@, body@)
            } else {
                is_message(call, t.identity@, t.exchange@, Some(t.channel@), summary@, body@, 1, sound != Sound::Silent)
            },
            None => is_message(call, ""@, ""@, None, summary@, body@, 1, sound != Sound::Silent),
        },
{
    match target {
        Some(t) => if sound == Sound::Ring {
            post_ring(t.identity.as_str(), t.exchange.as_str(), &t.channel, body)
        } else {
            post_message(
                t.identity.as_str(),
                t.exchange.as_str(),
                Some(&t.channel),
                summary,
                body,
                1,
                sound != Sound::Silent,
            )
        },
        None => post_message("", "", None, summary, body, 1, sound != Sound::Silent),
    }
}

/// The wake window's phone: notifications composed by the window, posted
/// for one identity at one exchange.
#[derive(Debug, Clone, PartialEq, Eq)]
pub struct AndroidPhone {
    pub identity: String,
    pub exchange: String,
}

impl AndroidPhone {
    /// A composed notification, with sound.
    pub fn notify_call(&self, n: &Notification) -> (call: GlueCall)
        ensures
            is_message(
                call,
                self.identity@,
                self.exchange@,
                match n.channel {
                    Some(c) => Some(c@),
                    None => None,
                },
                n.title@,
                n.body@,
                n.count,
                true,
            ),
    {
        let channel = match &n.channel {
            Some(c) => Some(c),
            None => None,
        };
        post_message(self.identity.as_str(), self.exchange.as_str(), channel, n.title.as_str(), n.body.as_str(), n.count, true)
    }

    /// A call ringing, named by the conversation it rings in.
    pub fn ring_call(&self, r: &Ring) -> (call: GlueCall)
        ensures
            is_ring(call, self.identity@, self.exchange@, r.channel@, r.label@),
    {
        post_ring(self.identity.as_str(), self.exchange.as_str(), &r.channel, r.label.as_str())
    }

    /// A ring taken down.
    pub fn unring_call(&self, channel: &[u8; 32]) -> (call: GlueCall)
        ensures
            is_end_ring(call, channel@),
    {
        end_ring(channel)
    }
}

/// `Audio.setSpeaker`: the call on the loudspeaker, or back on the earpiece.
pub fn set_speaker(on: bool) -> (call: GlueCall)
    ensures
        call.wf(),
        call.class@ == "Audio"@,
        call.method@ == "setSpeaker"@,
        call.signature@ == "(Landroid/content/Context;Z)Z"@,
        call.args@ == seq![Arg::Context, Arg::Flag(on)],
{
    let mut args: Vec<Arg> = Vec::new();
    args.push(Arg::Context);
    args.push(Arg::Flag(on));
    GlueCall { class: "Audio", method: "setSpeaker", signature: "(Landroid/content/Context;Z)Z", args }
}

/// Where the call's sound went: what the platform answered, or, when it
/// could not be asked, where it was -- never what was only asked for.
pub fn routed(speaker: bool, answer: Result<bool, String>) -> (r: bool)
    ensures
        r == match answer {
            Ok(got) => got,
            Err(_) => !speaker,
        },
{
    match answer {
        Ok(got) => got,
        Err(_) => !speaker,
    }
}

/// `ReachService.begin` or `end`: keep the process alive with its
/// connection open, or let it go.
pub fn set_reach(on: bool) -> (call: GlueCall)
    ensures
        call.wf(),
        call.class@ == "ReachService"@,
        call.method@ == if on {
            "begin"@
        } else {
            "end"@
        },
        call.signature@ == "(Landroid/content/Context;)V"@,
        call.args@ == seq![Arg::Context],
{
    let method = if on {
        "begin"
    } else {
        "end"
    };
    let mut args: Vec<Arg> = Vec::new();
    args.push(Arg::Context);
    GlueCall { class: "ReachService", method, signature: "(Landroid/content/Context;)V", args }
}

/// `Notifier.enabled`: whether sigil may post notifications right now.
pub fn notifications_enabled() -> (call: GlueCall)
    ensures
        call.wf(),
        call.class@ == "Notifier"@,
        call.method@ == "enabled"@,
        call.signature@ == "(Landroid/content/Context;)Z"@,
        call.args@ == seq![Arg::Context],
{
    let mut args: Vec<Arg> = Vec::new();
    args.push(Arg::Context);
    GlueCall { class: "Notifier", method: "enabled", signature: "(Landroid/content/Context;)Z", args }
}

/// What `Notifier.enabled` answered, with no answer read as no.
pub fn enabled(answer: Result<bool, String>) -> (r: bool)
    ensures
        r == (answer matches Ok(true)),
{
    match answer {
        Ok(on) => on,
        Err(_) => false,
    }
}

/// `Endpoint.get`: the endpoint the glue holds.
pub fn stored_endpoint() -> (call: GlueCall)
    ensures
        call.wf(),
        call.class@ == "Endpoint"@,
        call.method@ == "get"@,
        call.signature@ == "(Landroid/content/Context;)Ljava/lang/String;"@,
        call.args@ == seq![Arg::Context],
{
    let mut args: Vec<Arg> = Vec::new();
    args.push(Arg::Context);
    GlueCall {
        class: "Endpoint",
        method: "get",
        signature: "(Landroid/content/Context;)Ljava/lang/String;",
        args,
    }
}

/// `Endpoint.set`: keep this endpoint, or none.
pub fn store_endpoint(url: Option<&str>) -> (call: GlueCall)
    ensures
        call.wf(),
        call.class@ == "Endpoint"@,
        call.method@ == "set"@,
        call.signature@ == "(Landroid/content/Context;Ljava/lang/String;)V"@,
        call.args@.len() == 2,
        call.args@[0] == Arg::Context,
        match url {
            Some(u) => call.args@[1] matches Arg::Text(t) && t@ == u@,
            None => call.args@[1] == Arg::Null,
        },
{
    let mut args: Vec<Arg> = Vec::new();
    args.push(Arg::Context);
    args.push(
        match url {
            Some(u) => text(u),
            None => Arg::Null,
        },
    );
    GlueCall {
        class: "Endpoint",
        method: "set",
        signature: "(Landroid/content/Context;Ljava/lang/String;)V",
        args,
    }
}

/// `Vault.seal` or `Vault.open`: bytes in, bytes out, or null.
pub fn call_vault(sealing: bool, input: &[u8]) -> (call: GlueCall)
    ensures
        call.wf(),
        call.class@ == "Vault"@,
        call.method@ == if sealing {
            "seal"@
        } else {
            "open"@
        },
        call.signature@ == "([B)[B"@,
        call.args@.len() == 1,
        call.args@[0] matches Arg::Bytes(b) && b@ == input@,
{
    let mut bytes: Vec<u8> = Vec::new();
    let mut i: usize = 0;
    while i < input.len()
        invariant
            i <= input@.len(),
            bytes@ == input@.take(i as int),
        decreases input@.len() - i,
    {
        bytes.push(input[i]);
        i = i + 1;
    }
    assert(input@.take(input@.len() as int) == input@);
    let mut args: Vec<Arg> = Vec::new();
    args.push(Arg::Bytes(bytes));
    GlueCall {
        class: "Vault",
        method: if sealing {
            "seal"
        } else {
            "open"
        },
        signature: "([B)[B",
        args,
    }
}

pub open spec fn vault_refusal(sealing: bool) -> Seq<char> {
    if sealing {
        "the key store sealed nothing"@
    } else {
        "the key store would not open the passphrase"@
    }
}

/// What the key store answered: its bytes, or why there are none -- a
/// `null` is a refusal too.
pub fn vault_answer(sealing: bool, answer: Result<Option<Vec<u8>>, String>) -> (r: Result<
    Vec<u8>,
    String,
>)
    ensures
        match answer {
            Ok(Some(v)) => r == Ok::<Vec<u8>, String>(v),
            Ok(None) => r matches Err(e) && e@ == vault_refusal(sealing),
            Err(e) => r == Err::<Vec<u8>, String>(e),
        },
{
    match answer {
        Ok(Some(v)) => Ok(v),
        Ok(None) => Err(
            String::from_str(
                if sealing {
                    "the key store sealed nothing"
                } else {
                    "the key store would not open the passphrase"
                },
            ),
        ),
        Err(e) => Err(e),
    }
}

/// `Files.pick`: open the platform's file chooser.
pub fn pick_files() -> (call: GlueCall)
    ensures
        call.wf(),
        call.class@ == "Files"@,
        call.method@ == "pick"@,
        call.signature@ == "()V"@,
        call.args@.len() == 0,
{
    GlueCall { class: "Files", method: "pick", signature: "()V", args: Vec::new() }
}

/// `Files.saveTarget`: where a file of this name is to be saved.
pub fn save_target(name: &str) -> (call: GlueCall)
    ensures
        call.wf(),
        call.class@ == "Files"@,
        call.method@ == "saveTarget"@,
        call.signature@ == "(Landroid/content/Context;Ljava/lang/String;)Ljava/lang/String;"@,
        call.args@.len() == 2,
        call.args@[0] == Arg::Context,
        call.args@[1] matches Arg::Text(t) && t@ == name@,
{
    let mut args: Vec<Arg> = Vec::new();
    args.push(Arg::Context);
    args.push(text(name));
    GlueCall {
        class: "Files",
        method: "saveTarget",
        signature: "(Landroid/content/Context;Ljava/lang/String;)Ljava/lang/String;",
        args,
    }
}

/// Where `Files.saveTarget` said to save: a path, or nowhere when it
/// answered an empty one or could not be asked.
pub fn save_answer(answer: Result<Option<String>, String>) -> (r: Option<String>)
    ensures
        match answer {
            Ok(Some(path)) => if path@.len() > 0 {
                r == Some(path)
            } else {
                r is None
            },
            _ => r is None,
        },
{
    match answer {
        Ok(Some(path)) => if path.as_str().unicode_len() > 0 {
            Some(path)
        } else {
            None
        },
        _ => None,
    }
}

/// The endpoint the distributor handed over: none for a `null` or an empty
/// one.
pub fn endpoint_given(url: Option<String>) -> (r: Option<String>)
    ensures
        match url {
            Some(u) => if u@.len() > 0 {
                r == Some(u)
            } else {
                r is None
            },
            None => r is None,
        },
{
    match url {
        Some(u) => if u.as_str().unicode_len() > 0 {
            Some(u)
        } else {
            None
        },
        None => None,
    }
}

/// The endpoint the glue holds, as `Endpoint.get` answered: none for a
/// `null`, and none when it could not be asked.
pub fn endpoint_held(answer: Result<Option<String>, String>) -> (r: Option<String>)
    ensures
        r == match answer {
            Ok(held) => held,
            Err(_) => None::<String>,
        },
{
    match answer {
        Ok(held) => held,
        Err(_) => None,
    }
}

/// What the system draws over the surface, and the theme it last said,
/// as the glue reports them.
pub struct Shade {
    /// Pixels at the top, bottom, left and right.
    pub insets: [i32; 4],
    /// `Some(true)` dark, until a frame takes it.
    pub theme: Option<bool>,
    /// The window gave a way to ask it to look again.
    pub repaint: bool,
}

impl Shade {
    pub fn new() -> (s: Shade)
        ensures
            forall|i: int| 0 <= i < 4 ==> s.insets[i] == 0,
            s.theme is None,
            !s.repaint,
    {
        Shade { insets: [0; 4], theme: None, repaint: false }
    }

    /// The window gives its way to be asked to look again; the first one
    /// given is kept. Whether this one is.
    pub fn repaint_with(&mut self) -> (kept: bool)
        ensures
            kept == !old(self).repaint,
            final(self).repaint,
            final(self).insets == old(self).insets,
            final(self).theme == old(self).theme,
    {
        let kept = !self.repaint;
        self.repaint = true;
        kept
    }

    /// The system's insets changed: kept, and the window asked to look
    /// again -- the keyboard rising is an event nothing else would repaint
    /// for -- when it gave a way to be asked. Whether to ask.
    pub fn set_insets(&mut self, px: [i32; 4]) -> (repaint: bool)
        ensures
            final(self).insets == px,
            final(self).theme == old(self).theme,
            final(self).repaint == old(self).repaint,
            repaint == old(self).repaint,
    {
        self.insets = px;
        self.repaint
    }

    pub fn insets_px(&self) -> (r: [i32; 4])
        ensures
            r == self.insets,
    {
        self.insets
    }

    /// The system's theme changed: kept until a frame takes it, and the
    /// window asked to look again when it gave a way to be asked. Whether
    /// to ask.
    pub fn set_theme(&mut self, dark: bool) -> (repaint: bool)
        ensures
            final(self).theme == Some(dark),
            final(self).insets == old(self).insets,
            final(self).repaint == old(self).repaint,
            repaint == old(self).repaint,
    {
        self.theme = Some(dark);
        self.repaint
    }

    /// The theme the system last said, taken once: a second take before it
    /// says again has nothing.
    pub fn take_theme(&mut self) -> (r: Option<bool>)
        ensures
            r == old(self).theme,
            final(self).theme is None,
            final(self).insets == old(self).insets,
            final(self).repaint == old(self).repaint,
    {
        let r = self.theme;
        self.theme = None;
        r
    }
}

/// One pick at a time: the answer to the pick in progress, if any.
pub struct Picking<A> {
    pub waiting: Option<A>,
}

impl<A> Picking<A> {
    pub fn new() -> (p: Picking<A>)
        ensures
            p.waiting is None,
    {
        Picking { waiting: None }
    }

    /// A new pick begins: it waits, and the one it replaces, if any, is
    /// handed back to be answered with nothing.
    pub fn start(&mut self, answer: A) -> (previous: Option<A>)
        ensures
            previous == old(self).waiting,
            final(self).waiting == Some(answer),
    {
        let previous = self.waiting.take();
        self.waiting = Some(answer);
        previous
    }

    /// The chooser answered: the pick waiting for it, to be given the paths.
    pub fn picked(&mut self) -> (waiting: Option<A>)
        ensures
            waiting == old(self).waiting,
            final(self).waiting is None,
    {
        self.waiting.take()
    }
}

} // verus!
