//! Zero-width steganography: a secret's UTF-8 bytes are written as invisible
//! characters (ZERO WIDTH SPACE for bit 0, ZERO WIDTH NON-JOINER for bit 1,
//! most significant bit first) between two ZERO WIDTH JOINER sentinels, and
//! tucked in after the cover text's first character.

use vstd::prelude::*;
use vstd::utf8::*;
use vstd::string::StringExecFns;
use crate::text::{chars_of, lemma_encode_utf8_empty, push_char, string_from_utf8};

verus! {

/// ZERO WIDTH SPACE: bit 0.
pub const ZERO: char = '\u{200B}';

/// ZERO WIDTH NON-JOINER: bit 1.
pub const ONE: char = '\u{200C}';

/// ZERO WIDTH JOINER: the start and end sentinel.
pub const MARK: char = '\u{200D}';

/// Why no secret could be revealed.
#[derive(Debug, PartialEq, Eq, Structural)]
pub enum StegoError {
    /// No pair of sentinels.
    NoPayload,
    /// The bits between the sentinels are none, or not whole bytes.
    Corrupt,
    /// The hidden bytes are not well-formed UTF-8.
    NotUtf8,
}

/// The stable code of an error, for the user interface to localise.
pub open spec fn error_code(e: StegoError) -> Seq<char> {
    match e {
        StegoError::NoPayload => "stego_no_payload"@,
        StegoError::Corrupt => "stego_corrupt"@,
        StegoError::NotUtf8 => "stego_not_utf8"@,
    }
}

impl StegoError {
    /// Stable code for the frontend to localise.
    pub fn code(&self) -> (r: &'static str)
        ensures
            r@ == error_code(*self),
    {
        match self {
            StegoError::NoPayload => "stego_no_payload",
            StegoError::Corrupt => "stego_corrupt",
            StegoError::NotUtf8 => "stego_not_utf8",
        }
    }
}

/// The index of the first sentinel at or after `from`, if any.
pub open spec fn next_mark(t: Seq<char>, from: int) -> Option<int>
    decreases t.len() - from,
{
    if from < 0 || from >= t.len() {
        None
    } else if t[from] == MARK {
        Some(from)
    } else {
        next_mark(t, from + 1)
    }
}

/// The bit that `c` stands for, if it stands for one.
pub open spec fn bit_value(c: char) -> Option<u8> {
    if c == ZERO {
        Some(0u8)
    } else if c == ONE {
        Some(1u8)
    } else {
        None
    }
}

/// The bits that the characters of `s` stand for, in order; other
/// characters are skipped.
pub open spec fn collect_bits(s: Seq<char>) -> Seq<u8>
    decreases s.len(),
{
    if s.len() == 0 {
        Seq::empty()
    } else {
        match bit_value(s.last()) {
            Some(v) => collect_bits(s.drop_last()).push(v),
            None => collect_bits(s.drop_last()),
        }
    }
}

/// The number whose binary digits, most significant first, are `bits`.
pub open spec fn bits_value(bits: Seq<u8>) -> nat
    decreases bits.len(),
{
    if bits.len() == 0 {
        0
    } else {
        bits_value(bits.drop_last()) * 2 + bits.last() as nat
    }
}

/// The bytes that a run of bits spells, eight bits per byte.
pub open spec fn bits_to_bytes(bits: Seq<u8>) -> Seq<u8> {
    Seq::new(bits.len() / 8, |k: int| bits_value(bits.subrange(8 * k, 8 * k + 8)) as u8)
}

/// What revealing `t` gives: the secret spelled by the bits between the
/// first two sentinels.
pub open spec fn reveal_spec(t: Seq<char>) -> Result<Seq<char>, StegoError> {
    match next_mark(t, 0) {
        None => Err(StegoError::NoPayload),
        Some(a) => match next_mark(t, a + 1) {
            None => Err(StegoError::NoPayload),
            Some(b) => {
                let bits = collect_bits(t.subrange(a + 1, b));
                if bits.len() == 0 || bits.len() % 8 != 0 {
                    Err(StegoError::Corrupt)
                } else {
                    let bytes = bits_to_bytes(bits);
                    if valid_utf8(bytes) {
                        Ok(decode_utf8(bytes))
                    } else {
                        Err(StegoError::NotUtf8)
                    }
                }
            },
        },
    }
}

/// Whether `c` is one of the three zero-width characters used here.
pub open spec fn is_invisible(c: char) -> bool {
    c == ZERO || c == ONE || c == MARK
}

/// The symbol for bit `k` of `b`, counting from the most significant (k = 0).
pub open spec fn bit_symbol(b: u8, k: int) -> char {
    if (b >> ((7 - k) as u8)) & 1u8 == 1u8 {
        ONE
    } else {
        ZERO
    }
}

/// The eight symbols of byte `b`, most significant bit first.
pub open spec fn byte_bit_symbols(b: u8) -> Seq<char> {
    Seq::new(8, |k: int| bit_symbol(b, k))
}

/// The symbols of a byte string.
pub open spec fn bits_symbols(bytes: Seq<u8>) -> Seq<char>
    decreases bytes.len(),
{
    if bytes.len() == 0 {
        Seq::empty()
    } else {
        bits_symbols(bytes.drop_last()) + byte_bit_symbols(bytes.last())
    }
}

/// The invisible run that carries `secret`.
pub open spec fn payload_spec(secret: Seq<char>) -> Seq<char> {
    seq![MARK] + bits_symbols(encode_utf8(secret)) + seq![MARK]
}

/// `cover` with the payload of `secret` after its first character (or the
/// payload alone, for an empty cover).
pub open spec fn hide_spec(secret: Seq<char>, cover: Seq<char>) -> Seq<char> {
    if cover.len() == 0 {
        payload_spec(secret)
    } else {
        seq![cover[0]] + payload_spec(secret) + cover.drop_first()
    }
}

/// Encodes `secret` as an invisible zero-width run wrapped in sentinels.
pub fn payload(secret: &str) -> (out: String)
    ensures
        out@ == payload_spec(secret@),
{
    let mut out = String::new();
    push_char(&mut out, MARK);
    let bytes = secret.as_bytes();
    let n = bytes.len();
    assert(seq![MARK] + bits_symbols(bytes@.take(0)) =~= seq![MARK]);
    for idx in 0..n
        invariant
            n == bytes@.len(),
            out@ == seq![MARK] + bits_symbols(bytes@.take(idx as int)),
    {
        let byte = bytes[idx];
        let ghost before = out@;
        let mut i: u8 = 8;
        while i > 0
            invariant
                i <= 8,
                out@ == before + byte_bit_symbols(byte).take(8 - i),
            decreases i,
        {
            i = i - 1;
            let bit = if (byte >> i) & 1 == 1 {
                ONE
            } else {
                ZERO
            };
            assert(bit == bit_symbol(byte, 7 - i));
            assert(byte_bit_symbols(byte).take(8 - i) =~= byte_bit_symbols(byte).take(7 - i).push(bit));
            push_char(&mut out, bit);
        }
        assert(byte_bit_symbols(byte).take(8) =~= byte_bit_symbols(byte));
        assert(bytes@.take(idx + 1).drop_last() =~= bytes@.take(idx as int));
        assert(seq![MARK] + bits_symbols(bytes@.take(idx + 1)) =~= before + byte_bit_symbols(byte));
    }
    assert(bytes@.take(n as int) =~= bytes@);
    push_char(&mut out, MARK);
    assert(out@ =~= payload_spec(secret@));
    out
}

/// Hides `secret` inside `cover`; the result renders exactly like `cover`.
pub fn hide_secret(secret: &str, cover: &str) -> (out: String)
    ensures
        out@ == hide_spec(secret@, cover@),
{
    let load = payload(secret);
    let chars = chars_of(cover);
    let n = chars.len();
    if n == 0 {
        return load;
    }
    let mut out = String::new();
    push_char(&mut out, chars[0]);
    out.append(load.as_str());
    let mut i: usize = 1;
    while i < n
        invariant
            n == chars@.len(),
            chars@ == cover@,
            1 <= i <= n,
            out@ == seq![cover@[0]] + payload_spec(secret@) + cover@.subrange(1, i as int),
        decreases n - i,
    {
        let ghost before = out@;
        push_char(&mut out, chars[i]);
        assert(cover@.subrange(1, i + 1) =~= cover@.subrange(1, i as int).push(cover@[i as int]));
        i = i + 1;
    }
    assert(cover@.subrange(1, n as int) =~= cover@.drop_first());
    out
}

/// `next_mark` skips a stretch without sentinels.
proof fn lemma_next_mark_skip(t: Seq<char>, from: int, to: int)
    requires
        0 <= from <= to <= t.len(),
        forall|j: int| from <= j < to ==> t[j] != MARK,
    ensures
        next_mark(t, from) == next_mark(t, to),
    decreases to - from,
{
    if from < to {
        lemma_next_mark_skip(t, from + 1, to);
    }
}

proof fn lemma_collect_bits_push(s: Seq<char>, c: char)
    ensures
        collect_bits(s.push(c)) == match bit_value(c) {
            Some(v) => collect_bits(s).push(v),
            None => collect_bits(s),
        },
{
    assert(s.push(c).drop_last() =~= s);
}

proof fn lemma_collect_bits_are_bits(s: Seq<char>)
    ensures
        forall|i: int| 0 <= i < collect_bits(s).len() ==> #[trigger] collect_bits(s)[i] <= 1,
    decreases s.len(),
{
    if s.len() > 0 {
        lemma_collect_bits_are_bits(s.drop_last());
        let p = collect_bits(s.drop_last());
        assert forall|i: int| 0 <= i < collect_bits(s).len() implies #[trigger] collect_bits(s)[i] <= 1 by {
            if i < p.len() {
                assert(collect_bits(s)[i] == p[i]);
            }
        }
    }
}

proof fn lemma_bits_value_push(bits: Seq<u8>, b: u8)
    ensures
        bits_value(bits.push(b)) == bits_value(bits) * 2 + b as nat,
{
    assert(bits.push(b).drop_last() =~= bits);
}

/// Two to the power `n`.
spec fn two_pow(n: nat) -> nat
    decreases n,
{
    if n == 0 {
        1
    } else {
        2 * two_pow((n - 1) as nat)
    }
}

proof fn lemma_two_pow_small(n: nat)
    requires
        n <= 7,
    ensures
        two_pow(n) <= 128,
    decreases 7 - n,
{
    reveal_with_fuel(two_pow, 8);
    if n < 7 {
        lemma_two_pow_small(n + 1);
    }
}

proof fn lemma_shift_in(acc: u8, b: u8)
    requires
        acc < 128,
        b <= 1,
    ensures
        (acc << 1u8) | b == acc * 2 + b,
{
    assert((acc << 1u8) | b == acc * 2 + b) by (bit_vector)
        requires
            acc < 128,
            b <= 1,
    ;
}

/// Packs a whole number of bits into bytes, eight bits per byte.
fn pack_bits(bits: &Vec<u8>) -> (bytes: Vec<u8>)
    requires
        bits@.len() % 8 == 0,
        forall|i: int| 0 <= i < bits@.len() ==> bits@[i] <= 1,
    ensures
        bytes@ == bits_to_bytes(bits@),
{
    let nb = bits.len() / 8;
    let mut bytes: Vec<u8> = Vec::new();
    for k in 0..nb
        invariant
            nb == bits@.len() / 8,
            bits@.len() % 8 == 0,
            forall|i: int| 0 <= i < bits@.len() ==> bits@[i] <= 1,
            bytes@.len() == k,
            forall|m: int| 0 <= m < k ==> bytes@[m] == bits_value(bits@.subrange(8 * m, 8 * m + 8)) as u8,
    {
        let mut acc: u8 = 0;
        let mut j: usize = 0;
        assert(8 * k + 8 <= bits@.len()) by (nonlinear_arith)
            requires
                k < nb,
                nb == bits@.len() / 8,
        ;
        assert(bits@.subrange(8 * k, 8 * k + 0) =~= Seq::<u8>::empty());
        while j < 8
            invariant
                nb == bits@.len() / 8,
                k < nb,
                8 * k + 8 <= bits@.len(),
                bits@.len() == bits.len(),
                bits@.len() % 8 == 0,
                forall|i: int| 0 <= i < bits@.len() ==> bits@[i] <= 1,
                j <= 8,
                acc as nat == bits_value(bits@.subrange(8 * k, 8 * k + j)),
                acc < two_pow(j as nat),
            decreases 8 - j,
        {
            let ghost sub = bits@.subrange(8 * k, 8 * k + j);
            proof {
                lemma_two_pow_small(j as nat);
            }
            let pos: usize = 8 * k + j;
            let b = bits[pos];
            proof {
                lemma_shift_in(acc, b);
                lemma_bits_value_push(sub, b);
                assert(bits@.subrange(8 * k, 8 * k + j + 1) =~= sub.push(b));
            }
            acc = (acc << 1) | b;
            assert(two_pow((j + 1) as nat) == 2 * two_pow(j as nat));
            j = j + 1;
        }
        bytes.push(acc);
    }
    assert(bytes@ =~= bits_to_bytes(bits@));
    bytes
}

/// Extracts a secret previously hidden with `hide_secret`.
pub fn reveal_secret(stego: &str) -> (r: Result<String, StegoError>)
    ensures
        r matches Ok(s) ==> reveal_spec(stego@) == Ok::<Seq<char>, StegoError>(s@),
        r matches Err(e) ==> reveal_spec(stego@) == Err::<Seq<char>, StegoError>(e),
{
    let chars = chars_of(stego);
    let n = chars.len();
    let ghost t = chars@;
    let mut bits: Vec<u8> = Vec::new();
    let mut started = false;
    let mut closed = false;
    let ghost mut a: int = 0;
    let ghost mut b: int = 0;
    let mut i: usize = 0;
    while i < n && !closed
        invariant
            t == chars@,
            t == stego@,
            n == t.len(),
            i <= n,
            !started ==> !closed,
            !started ==> bits@.len() == 0,
            !started ==> forall|j: int| 0 <= j < i ==> t[j] != MARK,
            started ==> 0 <= a < i && t[a] == MARK && forall|j: int| 0 <= j < a ==> t[j] != MARK,
            started && !closed ==> forall|j: int| a < j < i ==> t[j] != MARK,
            started && !closed ==> bits@ == collect_bits(t.subrange(a + 1, i as int)),
            closed ==> a < b < i && t[b] == MARK && forall|j: int| a < j < b ==> t[j] != MARK,
            closed ==> bits@ == collect_bits(t.subrange(a + 1, b)),
        decreases n - i,
    {
        let c = chars[i];
        if c == MARK && !started {
            started = true;
            proof {
                a = i as int;
                assert(t.subrange(a + 1, i + 1) =~= Seq::<char>::empty());
            }
        } else if c == MARK && started {
            closed = true;
            proof {
                b = i as int;
            }
        } else if c == ZERO && started {
            proof {
                assert(t.subrange(a + 1, i + 1) =~= t.subrange(a + 1, i as int).push(c));
                lemma_collect_bits_push(t.subrange(a + 1, i as int), c);
            }
            bits.push(0);
        } else if c == ONE && started {
            proof {
                assert(t.subrange(a + 1, i + 1) =~= t.subrange(a + 1, i as int).push(c));
                lemma_collect_bits_push(t.subrange(a + 1, i as int), c);
            }
            bits.push(1);
        } else {
            proof {
                if started {
                    assert(t.subrange(a + 1, i + 1) =~= t.subrange(a + 1, i as int).push(c));
                    lemma_collect_bits_push(t.subrange(a + 1, i as int), c);
                }
            }
        }
        i = i + 1;
    }
    proof {
        if !started {
            lemma_next_mark_skip(t, 0, n as int);
        } else {
            lemma_next_mark_skip(t, 0, a);
            if closed {
                lemma_next_mark_skip(t, a + 1, b);
                lemma_collect_bits_are_bits(t.subrange(a + 1, b));
            } else {
                lemma_next_mark_skip(t, a + 1, n as int);
            }
        }
    }
    if !started || !closed {
        return Err(StegoError::NoPayload);
    }
    if bits.len() == 0 || bits.len() % 8 != 0 {
        return Err(StegoError::Corrupt);
    }
    let bytes = pack_bits(&bits);
    match string_from_utf8(bytes) {
        Ok(s) => Ok(s),
        Err(_) => Err(StegoError::NotUtf8),
    }
}

/// The characters of `t` that are not zero-width characters of this scheme.
pub open spec fn visible(t: Seq<char>) -> Seq<char>
    decreases t.len(),
{
    if t.len() == 0 {
        Seq::empty()
    } else if is_invisible(t.last()) {
        visible(t.drop_last())
    } else {
        visible(t.drop_last()).push(t.last())
    }
}

proof fn lemma_visible_concat(a: Seq<char>, b: Seq<char>)
    ensures
        visible(a + b) == visible(a) + visible(b),
    decreases b.len(),
{
    if b.len() == 0 {
        assert(a + b =~= a);
        assert(visible(a) + visible(b) =~= visible(a));
    } else {
        assert((a + b).drop_last() =~= a + b.drop_last());
        assert((a + b).last() == b.last());
        lemma_visible_concat(a, b.drop_last());
        if !is_invisible(b.last()) {
            assert(visible(a) + visible(b.drop_last()).push(b.last())
                =~= (visible(a) + visible(b.drop_last())).push(b.last()));
        }
    }
}

proof fn lemma_visible_of_invisible(t: Seq<char>)
    requires
        forall|i: int| 0 <= i < t.len() ==> is_invisible(#[trigger] t[i]),
    ensures
        visible(t) == Seq::<char>::empty(),
    decreases t.len(),
{
    if t.len() > 0 {
        assert(is_invisible(t[t.len() - 1]));
        lemma_visible_of_invisible(t.drop_last());
    }
}

proof fn lemma_bit_symbol(b: u8, k: int)
    requires
        0 <= k < 8,
    ensures
        bit_symbol(b, k) == ONE || bit_symbol(b, k) == ZERO,
        bit_symbol(b, k) == ONE <==> (b >> ((7 - k) as u8)) & 1u8 == 1u8,
        bit_symbol(b, k) == ZERO <==> (b >> ((7 - k) as u8)) & 1u8 == 0u8,
{
    let s = (7 - k) as u8;
    assert((b >> s) & 1u8 == 1u8 || (b >> s) & 1u8 == 0u8) by (bit_vector);
}

/// Symbol `8 * m + k` of a byte string's symbols is bit `k` of byte `m`.
proof fn lemma_bits_symbols_index(bytes: Seq<u8>)
    ensures
        bits_symbols(bytes).len() == 8 * bytes.len(),
        forall|m: int, k: int|
            0 <= m < bytes.len() && 0 <= k < 8 ==> #[trigger] bits_symbols(bytes)[8 * m + k]
                == bit_symbol(bytes[m], k),
    decreases bytes.len(),
{
    if bytes.len() > 0 {
        let init = bytes.drop_last();
        lemma_bits_symbols_index(init);
        assert forall|m: int, k: int|
            0 <= m < bytes.len() && 0 <= k < 8 implies #[trigger] bits_symbols(bytes)[8 * m + k]
                == bit_symbol(bytes[m], k) by {
            if m < init.len() {
                assert(init[m] == bytes[m]);
                assert(bits_symbols(init)[8 * m + k] == bit_symbol(init[m], k));
            } else {
                assert(8 * m + k - 8 * init.len() == k);
            }
        }
    }
}

proof fn lemma_bits_symbols_invisible(bytes: Seq<u8>)
    ensures
        forall|i: int| 0 <= i < bits_symbols(bytes).len() ==> {
            let c = #[trigger] bits_symbols(bytes)[i];
            c == ZERO || c == ONE
        },
{
    lemma_bits_symbols_index(bytes);
    assert forall|i: int| 0 <= i < bits_symbols(bytes).len() implies {
        let c = #[trigger] bits_symbols(bytes)[i];
        c == ZERO || c == ONE
    } by {
        let m = i / 8;
        let k = i % 8;
        assert(i == 8 * m + k);
        lemma_bit_symbol(bytes[m], k);
    }
}

/// On a run of bit symbols, `collect_bits` reads each symbol as its bit.
proof fn lemma_collect_bits_of_bit_symbols(s: Seq<char>)
    requires
        forall|i: int| 0 <= i < s.len() ==> (#[trigger] s[i] == ZERO || s[i] == ONE),
    ensures
        collect_bits(s) == Seq::new(s.len(), |i: int| if s[i] == ONE { 1u8 } else { 0u8 }),
    decreases s.len(),
{
    if s.len() == 0 {
        assert(collect_bits(s) =~= Seq::new(s.len(), |i: int| if s[i] == ONE { 1u8 } else { 0u8 }));
    } else {
        let init = s.drop_last();
        assert(s[s.len() - 1] == ZERO || s[s.len() - 1] == ONE);
        assert forall|i: int| 0 <= i < init.len() implies (#[trigger] init[i] == ZERO || init[i] == ONE) by {
            assert(init[i] == s[i]);
        }
        lemma_collect_bits_of_bit_symbols(init);
        assert(collect_bits(s) =~= Seq::new(s.len(), |i: int| if s[i] == ONE { 1u8 } else { 0u8 }));
    }
}

/// Reading back the eight bits of a byte, most significant first, gives the byte.
proof fn lemma_bits_value_of_byte(x: u8, bits: Seq<u8>)
    requires
        bits.len() == 8,
        forall|k: int| 0 <= k < 8 ==> #[trigger] bits[k] == (x >> ((7 - k) as u8)) & 1u8,
    ensures
        bits_value(bits) == x,
{
    reveal_with_fuel(bits_value, 9);
    assert(bits.drop_last().drop_last().drop_last().drop_last().drop_last().drop_last().drop_last().drop_last().len() == 0);
    let b0 = bits[0];
    let b1 = bits[1];
    let b2 = bits[2];
    let b3 = bits[3];
    let b4 = bits[4];
    let b5 = bits[5];
    let b6 = bits[6];
    let b7 = bits[7];
    assert(((((((b0 as nat * 2 + b1 as nat) * 2 + b2 as nat) * 2 + b3 as nat) * 2 + b4 as nat) * 2
        + b5 as nat) * 2 + b6 as nat) * 2 + b7 as nat == x as nat) by (bit_vector)
        requires
            b0 == (x >> 7u8) & 1u8,
            b1 == (x >> 6u8) & 1u8,
            b2 == (x >> 5u8) & 1u8,
            b3 == (x >> 4u8) & 1u8,
            b4 == (x >> 3u8) & 1u8,
            b5 == (x >> 2u8) & 1u8,
            b6 == (x >> 1u8) & 1u8,
            b7 == (x >> 0u8) & 1u8,
    ;
}

/// The bits that a byte string's symbols stand for spell the byte string again.
proof fn lemma_bits_roundtrip(bytes: Seq<u8>)
    ensures
        collect_bits(bits_symbols(bytes)).len() == 8 * bytes.len(),
        bits_to_bytes(collect_bits(bits_symbols(bytes))) == bytes,
{
    let p = bits_symbols(bytes);
    lemma_bits_symbols_index(bytes);
    lemma_bits_symbols_invisible(bytes);
    lemma_collect_bits_of_bit_symbols(p);
    let bits = collect_bits(p);
    assert forall|m: int| 0 <= m < bytes.len() implies bits_to_bytes(bits)[m] == bytes[m] by {
        let sub = bits.subrange(8 * m, 8 * m + 8);
        assert forall|k: int| 0 <= k < 8 implies #[trigger] sub[k] == (bytes[m] >> ((7 - k) as u8)) & 1u8 by {
            assert(sub[k] == bits[8 * m + k]);
            assert(p[8 * m + k] == bit_symbol(bytes[m], k));
            lemma_bit_symbol(bytes[m], k);
        }
        lemma_bits_value_of_byte(bytes[m], sub);
    }
    assert(bits_to_bytes(bits) =~= bytes);
}

/// A hidden secret is revealed again, as long as the secret is not empty
/// and the cover does not begin with the sentinel character.
pub proof fn lemma_reveal_hide(secret: Seq<char>, cover: Seq<char>)
    requires
        secret.len() > 0,
        cover.len() == 0 || cover[0] != MARK,
    ensures
        reveal_spec(hide_spec(secret, cover)) == Ok::<Seq<char>, StegoError>(secret),
{
    let bytes = encode_utf8(secret);
    let p = bits_symbols(bytes);
    lemma_encode_utf8_empty(secret);
    lemma_bits_symbols_index(bytes);
    lemma_bits_symbols_invisible(bytes);
    lemma_bits_roundtrip(bytes);
    encode_utf8_valid_utf8(secret);
    encode_utf8_decode_utf8(secret);
    let t = hide_spec(secret, cover);
    let a: int = if cover.len() == 0 { 0 } else { 1 };
    let b: int = a + 1 + p.len();
    assert(t[a] == MARK);
    assert(t[b] == MARK);
    assert forall|j: int| a + 1 <= j < b implies t[j] != MARK by {
        assert(t[j] == p[j - a - 1]);
    }
    assert(t.subrange(a + 1, b) =~= p);
    lemma_next_mark_skip(t, a + 1, b);
    if cover.len() > 0 {
        assert(t[0] == cover[0]);
    }
    assert(next_mark(t, 0) == Some(a));
    assert(next_mark(t, a + 1) == Some(b));
}

/// Every character of a payload is one of the three zero-width characters.
proof fn lemma_payload_invisible(secret: Seq<char>)
    ensures
        forall|i: int| 0 <= i < payload_spec(secret).len() ==> is_invisible(#[trigger] payload_spec(secret)[i]),
{
    let bytes = encode_utf8(secret);
    let load = payload_spec(secret);
    lemma_bits_symbols_invisible(bytes);
    assert forall|i: int| 0 <= i < load.len() implies is_invisible(#[trigger] load[i]) by {
        if 0 < i < load.len() - 1 {
            assert(load[i] == bits_symbols(bytes)[i - 1]);
        }
    }
}

/// Removing this scheme's zero-width characters from a stego text leaves the
/// same visible characters as the cover: the output renders like the cover.
pub proof fn lemma_hide_looks_like_cover(secret: Seq<char>, cover: Seq<char>)
    ensures
        visible(hide_spec(secret, cover)) == visible(cover),
{
    let load = payload_spec(secret);
    lemma_payload_invisible(secret);
    lemma_visible_of_invisible(load);
    if cover.len() == 0 {
        assert(visible(cover) =~= Seq::<char>::empty());
    } else {
        let head = seq![cover[0]];
        let rest = cover.drop_first();
        lemma_visible_concat(head, load);
        lemma_visible_concat(head + load, rest);
        lemma_visible_concat(head, rest);
        assert(head + rest =~= cover);
        assert(visible(head) + Seq::<char>::empty() =~= visible(head));
    }
}

/// With an empty cover, the output is made only of zero-width characters.
pub proof fn lemma_hide_empty_cover_invisible(secret: Seq<char>)
    ensures
        forall|i: int| 0 <= i < hide_spec(secret, Seq::empty()).len()
            ==> is_invisible(#[trigger] hide_spec(secret, Seq::empty())[i]),
{
    lemma_payload_invisible(secret);
}

/// The state of reading a text from the start: no sentinel yet, inside a
/// payload with the bits read so far, or past the closing sentinel.
pub enum ScanState {
    Idle,
    Open(Seq<u8>),
    Closed(Seq<u8>),
}

/// The state after reading character `c` in state `st`. Characters other
/// than the three zero-width ones leave the state as it is.
pub open spec fn scan_step(st: ScanState, c: char) -> ScanState {
    match st {
        ScanState::Idle => if c == MARK {
            ScanState::Open(Seq::empty())
        } else {
            ScanState::Idle
        },
        ScanState::Open(bits) => if c == MARK {
            ScanState::Closed(bits)
        } else {
            match bit_value(c) {
                Some(v) => ScanState::Open(bits.push(v)),
                None => ScanState::Open(bits),
            }
        },
        ScanState::Closed(bits) => ScanState::Closed(bits),
    }
}

/// The state after reading all of `t`.
pub open spec fn scan(t: Seq<char>) -> ScanState
    decreases t.len(),
{
    if t.len() == 0 {
        ScanState::Idle
    } else {
        scan_step(scan(t.drop_last()), t.last())
    }
}

/// What revealing gives once the text has been read into `st`.
pub open spec fn scan_outcome(st: ScanState) -> Result<Seq<char>, StegoError> {
    match st {
        ScanState::Closed(bits) => if bits.len() == 0 || bits.len() % 8 != 0 {
            Err(StegoError::Corrupt)
        } else if valid_utf8(bits_to_bytes(bits)) {
            Ok(decode_utf8(bits_to_bytes(bits)))
        } else {
            Err(StegoError::NotUtf8)
        },
        _ => Err(StegoError::NoPayload),
    }
}

/// The zero-width characters of `t`, in order.
pub open spec fn invisible_part(t: Seq<char>) -> Seq<char>
    decreases t.len(),
{
    if t.len() == 0 {
        Seq::empty()
    } else if is_invisible(t.last()) {
        invisible_part(t.drop_last()).push(t.last())
    } else {
        invisible_part(t.drop_last())
    }
}

proof fn lemma_next_mark_push(t: Seq<char>, c: char, from: int)
    requires
        0 <= from <= t.len(),
    ensures
        next_mark(t.push(c), from) == match next_mark(t, from) {
            Some(x) => Some(x),
            None => if c == MARK {
                Some(t.len() as int)
            } else {
                None::<int>
            },
        },
    decreases t.len() - from,
{
    let u = t.push(c);
    assert(u[t.len() as int] == c);
    if from < t.len() {
        assert(u[from] == t[from]);
        lemma_next_mark_push(t, c, from + 1);
    }
}

/// The scan state in terms of the sentinels of `t`.
proof fn lemma_scan_marks(t: Seq<char>)
    ensures
        next_mark(t, 0) is None ==> scan(t) == ScanState::Idle,
        next_mark(t, 0) matches Some(a) ==> (next_mark(t, a + 1) is None ==> scan(t) == ScanState::Open(
            collect_bits(t.subrange(a + 1, t.len() as int)),
        )),
        next_mark(t, 0) matches Some(a) ==> (next_mark(t, a + 1) matches Some(b) ==> scan(t)
            == ScanState::Closed(collect_bits(t.subrange(a + 1, b)))),
    decreases t.len(),
{
    if t.len() > 0 {
        let u = t.drop_last();
        let c = t.last();
        let n = u.len() as int;
        assert(u.push(c) =~= t);
        lemma_scan_marks(u);
        lemma_next_mark_push(u, c, 0);
        match next_mark(u, 0) {
            None => {
                if c == MARK {
                    assert(t.subrange(n + 1, n + 1) =~= Seq::<char>::empty());
                }
            },
            Some(a) => {
                lemma_next_mark_in_range(u, 0);
                lemma_next_mark_push(u, c, a + 1);
                match next_mark(u, a + 1) {
                    None => {
                        if c == MARK {
                            assert(t.subrange(a + 1, n) =~= u.subrange(a + 1, n));
                        } else {
                            assert(t.subrange(a + 1, n + 1) =~= u.subrange(a + 1, n).push(c));
                            lemma_collect_bits_push(u.subrange(a + 1, n), c);
                        }
                    },
                    Some(b) => {
                        lemma_next_mark_in_range(u, a + 1);
                        assert(t.subrange(a + 1, b) =~= u.subrange(a + 1, b));
                    },
                }
            },
        }
    }
}

proof fn lemma_next_mark_in_range(t: Seq<char>, from: int)
    ensures
        next_mark(t, from) matches Some(x) ==> from <= x < t.len() && t[x] == MARK,
    decreases t.len() - from,
{
    if 0 <= from < t.len() && t[from] != MARK {
        lemma_next_mark_in_range(t, from + 1);
    }
}

/// Revealing is reading the text from the start.
proof fn lemma_reveal_is_scan(t: Seq<char>)
    ensures
        reveal_spec(t) == scan_outcome(scan(t)),
{
    lemma_scan_marks(t);
}

/// Reading skips every character that is not one of the three zero-width ones.
proof fn lemma_scan_invisible_part(t: Seq<char>)
    ensures
        scan(t) == scan(invisible_part(t)),
    decreases t.len(),
{
    if t.len() > 0 {
        let u = t.drop_last();
        let c = t.last();
        lemma_scan_invisible_part(u);
        if is_invisible(c) {
            assert(invisible_part(u).push(c).drop_last() =~= invisible_part(u));
        }
    }
}

/// Revealing looks only at the zero-width characters: two texts with the same
/// zero-width characters in the same order reveal the same.
pub proof fn lemma_reveal_sees_only_zero_width(t1: Seq<char>, t2: Seq<char>)
    requires
        invisible_part(t1) == invisible_part(t2),
    ensures
        reveal_spec(t1) == reveal_spec(t2),
{
    lemma_reveal_is_scan(t1);
    lemma_reveal_is_scan(t2);
    lemma_scan_invisible_part(t1);
    lemma_scan_invisible_part(t2);
}

/// The payload of a secret is U+200D, then for each UTF-8 byte its eight
/// bits from the most significant, U+200C for 1 and U+200B for 0, then
/// U+200D again.
pub proof fn lemma_payload_layout(secret: Seq<char>, m: int, k: int)
    requires
        0 <= m < encode_utf8(secret).len(),
        0 <= k < 8,
    ensures
        payload_spec(secret).len() == 8 * encode_utf8(secret).len() + 2,
        payload_spec(secret)[0] == '\u{200D}',
        payload_spec(secret)[payload_spec(secret).len() - 1] == '\u{200D}',
        payload_spec(secret)[1 + 8 * m + k] == if (encode_utf8(secret)[m] as nat / vstd::arithmetic::power2::pow2(
            (7 - k) as nat,
        )) % 2 == 1 {
            '\u{200C}'
        } else {
            '\u{200B}'
        },
{
    let bytes = encode_utf8(secret);
    lemma_bits_symbols_index(bytes);
    let b = bytes[m];
    let sh = (7 - k) as u8;
    assert(payload_spec(secret)[1 + 8 * m + k] == bits_symbols(bytes)[8 * m + k]);
    lemma_shift_bit(b, sh);
}

proof fn lemma_shift_bit(b: u8, sh: u8)
    requires
        sh < 8,
    ensures
        ((b >> sh) & 1u8 == 1u8) <==> (b as nat / vstd::arithmetic::power2::pow2(sh as nat)) % 2 == 1,
{
    vstd::bits::lemma_u8_shr_is_div(b, sh);
    let q = b >> sh;
    assert((q & 1u8 == 1u8) <==> q % 2 == 1) by (bit_vector);
}

} // verus!
