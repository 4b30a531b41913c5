//! The decisions of the clipboard monitor. The host polls the clipboard and
//! writes to it; this module decides, from what was seen and written before,
//! whether a clipboard text is new, and what (if anything) to write back.
//! It is loop-safe: it never reacts to its own writes or to a text it has
//! already seen, and never writes back an empty or unchanged result.

use vstd::prelude::*;
use crate::codec::{
    decode, decode_spec, encode, encode_spec, lemma_decode_encode, lemma_encode_decode, looks_encoded,
    looks_encoded_spec,
};

verus! {

/// Whether `c` has Unicode's White_Space property (25 code points).
pub open spec fn is_white_space(c: char) -> bool {
    let u = c as u32;
    ||| 0x9 <= u <= 0xD
    ||| u == 0x20
    ||| u == 0x85
    ||| u == 0xA0
    ||| u == 0x1680
    ||| 0x2000 <= u <= 0x200A
    ||| u == 0x2028
    ||| u == 0x2029
    ||| u == 0x202F
    ||| u == 0x205F
    ||| u == 0x3000
}

/// `s` without its leading White_Space characters.
pub open spec fn trim_start(s: Seq<char>) -> Seq<char>
    decreases s.len(),
{
    if s.len() > 0 && is_white_space(s[0]) {
        trim_start(s.drop_first())
    } else {
        s
    }
}

/// `s` without its trailing White_Space characters.
pub open spec fn trim_end(s: Seq<char>) -> Seq<char>
    decreases s.len(),
{
    if s.len() > 0 && is_white_space(s.last()) {
        trim_end(s.drop_last())
    } else {
        s
    }
}

/// `s` without leading and trailing White_Space characters.
pub open spec fn trimmed(s: Seq<char>) -> Seq<char> {
    trim_end(trim_start(s))
}

/// Calls `str::trim`, which removes leading and trailing characters with the
/// Unicode White_Space property.
/// Trusted: the result is `trimmed` of the argument.
#[verifier::external_body]
fn trim_str(s: &str) -> (r: &str)
    ensures
        r@ == trimmed(s@),
{
    s.trim()
}

/// The contents of an optional string.
pub open spec fn opt_view(o: Option<String>) -> Option<Seq<char>> {
    match o {
        Some(s) => Some(s@),
        None => None,
    }
}

/// The memory of the clipboard monitor.
pub struct Monitor {
    last_seen: Option<String>,
    last_written: Option<String>,
}

/// Whether the monitor reacts to clipboard text `text`, whose trimmed form is
/// `t`, given the last text it saw and the last text it wrote.
pub open spec fn is_new_given(
    last_seen: Option<Seq<char>>,
    last_written: Option<Seq<char>>,
    text: Seq<char>,
    t: Seq<char>,
) -> bool {
    &&& t.len() > 0
    &&& last_written != Some(text)
    &&& last_seen != Some(text)
}

/// Whether the monitor reacts to clipboard text `text`, given the last text it
/// saw and the last text it wrote.
pub open spec fn is_new_text(
    last_seen: Option<Seq<char>>,
    last_written: Option<Seq<char>>,
    text: Seq<char>,
) -> bool {
    is_new_given(last_seen, last_written, text, trimmed(text))
}

/// What the monitor would write back for clipboard text `text` under `key`:
/// the decoding of the trimmed text if it looks encoded, else the encoding
/// of the text; nothing when decoding fails or the result is empty or equal
/// to the text.
pub open spec fn reply_spec(text: Seq<char>, key: Seq<char>) -> Option<Seq<char>> {
    reply_given(text, trimmed(text), key)
}

/// What the monitor would write back for clipboard text `text`, whose trimmed
/// form is `t`, under `key`.
pub open spec fn reply_given(text: Seq<char>, t: Seq<char>, key: Seq<char>) -> Option<Seq<char>> {
    let result = if looks_encoded_spec(t, key) {
        match decode_spec(t, key) {
            Ok(d) => Some(d),
            Err(_) => None,
        }
    } else {
        Some(encode_spec(text, key))
    };
    match result {
        Some(r) => if r.len() > 0 && r != text {
            Some(r)
        } else {
            None
        },
        None => None,
    }
}

impl Monitor {
    /// The last text seen.
    pub closed spec fn seen(&self) -> Option<Seq<char>> {
        opt_view(self.last_seen)
    }

    /// The last text written.
    pub closed spec fn written(&self) -> Option<Seq<char>> {
        opt_view(self.last_written)
    }

    /// A monitor that has seen and written nothing.
    pub fn new() -> (m: Monitor)
        ensures
            m.seen() is None,
            m.written() is None,
    {
        Monitor { last_seen: None, last_written: None }
    }

    /// Decides whether clipboard text `text` is new; a new text is remembered
    /// as seen.
    pub fn observe(&mut self, text: &String) -> (r: bool)
        ensures
            r == is_new_text(old(self).seen(), old(self).written(), text@),
            final(self).seen() == (if r { Some(text@) } else { old(self).seen() }),
            final(self).written() == old(self).written(),
    {
        let trimmed_text = trim_str(text.as_str());
        self.observe_given(text, trimmed_text)
    }

    /// Decides whether clipboard text `text`, whose trimmed form is
    /// `trimmed_text`, is new; a new text is remembered as seen.
    pub fn observe_given(&mut self, text: &String, trimmed_text: &str) -> (r: bool)
        ensures
            r == is_new_given(old(self).seen(), old(self).written(), text@, trimmed_text@),
            final(self).seen() == (if r { Some(text@) } else { old(self).seen() }),
            final(self).written() == old(self).written(),
    {
        if trimmed_text.is_empty() {
            return false;
        }
        let written_before = match &self.last_written {
            Some(w) => *w == *text,
            None => false,
        };
        if written_before {
            return false;
        }
        let seen_before = match &self.last_seen {
            Some(s) => *s == *text,
            None => false,
        };
        if seen_before {
            return false;
        }
        self.last_seen = Some(text.clone());
        true
    }

    /// Remembers that `result` was written to the clipboard.
    pub fn record_written(&mut self, result: &String)
        ensures
            final(self).written() == Some(result@),
            final(self).seen() == Some(result@),
    {
        self.last_written = Some(result.clone());
        self.last_seen = Some(result.clone());
    }
}

/// What to write back for clipboard text `text` under `key`, if anything.
pub fn reply(text: &String, key: &str) -> (r: Option<String>)
    ensures
        r matches Some(s) ==> reply_spec(text@, key@) == Some(s@),
        r is None <==> reply_spec(text@, key@) is None,
{
    let t = trim_str(text.as_str());
    reply_given_trimmed(text, t, key)
}

/// What to write back for clipboard text `text`, whose trimmed form is `t`,
/// under `key`, if anything.
pub fn reply_given_trimmed(text: &String, t: &str, key: &str) -> (r: Option<String>)
    ensures
        r matches Some(s) ==> reply_given(text@, t@, key@) == Some(s@),
        r is None <==> reply_given(text@, t@, key@) is None,
{
    let result = if looks_encoded(t, key) {
        match decode(t, key) {
            Ok(d) => d,
            Err(_) => return None,
        }
    } else {
        encode(text.as_str(), key)
    };
    if result.as_str().is_empty() || result == *text {
        return None;
    }
    Some(result)
}

/// The monitor never reacts to what it has just written.
pub proof fn lemma_ignores_own_write(written: Seq<char>)
    ensures
        !is_new_text(Some(written), Some(written), written),
{
}

/// A text that was just found new is not new a second time.
pub proof fn lemma_new_once(seen: Option<Seq<char>>, written: Option<Seq<char>>, text: Seq<char>)
    requires
        is_new_text(seen, written, text),
    ensures
        !is_new_text(Some(text), written, text),
{
}

/// A reply is never empty and never equal to the clipboard text.
pub proof fn lemma_reply_changes_text(text: Seq<char>, key: Seq<char>)
    requires
        reply_spec(text, key) is Some,
    ensures
        reply_spec(text, key)->Some_0.len() > 0,
        reply_spec(text, key)->Some_0 != text,
{
}

/// A clipboard text whose trimmed form does not look encoded is answered, if
/// at all, with an encoding that decodes back to the whole clipboard text,
/// surrounding whitespace included.
pub proof fn lemma_reply_encodes_whole_text(text: Seq<char>, key: Seq<char>)
    requires
        !looks_encoded_spec(trimmed(text), key),
        reply_spec(text, key) is Some,
    ensures
        decode_spec(reply_spec(text, key)->Some_0, key) == Ok::<Seq<char>, crate::base7::CodecError>(text),
{
    lemma_decode_encode(text, key);
}

/// A clipboard text whose trimmed form looks encoded is answered, if at all,
/// with a text whose encoding is exactly that trimmed form.
pub proof fn lemma_reply_decodes_trimmed_text(text: Seq<char>, key: Seq<char>)
    requires
        looks_encoded_spec(trimmed(text), key),
        reply_spec(text, key) is Some,
    ensures
        encode_spec(reply_spec(text, key)->Some_0, key) == trimmed(text),
        decode_spec(trimmed(text), key) == Ok::<Seq<char>, crate::base7::CodecError>(reply_spec(text, key)->Some_0),
{
    lemma_encode_decode(trimmed(text), key);
}

} // verus!
