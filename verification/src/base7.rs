//! Base-7 packing: each byte becomes three symbols of the alphabet
//! `F U C K Y O u` (7^3 = 343 >= 256), most significant digit first.

use vstd::prelude::*;
use vstd::string::StringExecFns;
use crate::text::{chars_of, push_char};

verus! {

/// Why a symbol string is not a packed byte string.
#[derive(Debug, PartialEq, Eq, Structural)]
pub enum CodecError {
    /// The number of symbols is not a multiple of three.
    InvalidLength,
    /// A character outside the alphabet; the first such one is carried.
    InvalidCharacter(char),
    /// A group of three symbols whose value exceeds 255.
    InvalidByte,
    /// The decoded bytes are not well-formed UTF-8.
    NotUtf8,
}

/// The user-facing text for an error.
pub open spec fn error_message(e: CodecError) -> Seq<char> {
    match e {
        CodecError::InvalidLength => "輸入長度必須是 3 的倍數，這不是合法的編碼字串。"@,
        CodecError::InvalidCharacter(c) => "包含非法字元「"@ + seq![c]
            + "」，編碼字串只能由 F U C K Y O u 組成。"@,
        CodecError::InvalidByte => "包含無效的編碼組合，這不是由 FQEncoder 產生的字串。"@,
        CodecError::NotUtf8 => "解碼失敗，可能是密碼不正確，或這不是 FQEncoder 編出來的字串。"@,
    }
}

/// The stable code of an error, for the user interface to localise.
pub open spec fn codec_error_code(e: CodecError) -> Seq<char> {
    match e {
        CodecError::InvalidLength => "invalid_length"@,
        CodecError::InvalidCharacter(c) => "invalid_character:"@ + seq![c],
        CodecError::InvalidByte => "invalid_byte"@,
        CodecError::NotUtf8 => "not_utf8"@,
    }
}

impl CodecError {
    /// Stable code for the frontend to localise, such as `invalid_character:x`.
    pub fn code(&self) -> (r: String)
        ensures
            r@ == codec_error_code(*self),
    {
        match self {
            CodecError::InvalidLength => String::from_str("invalid_length"),
            CodecError::InvalidCharacter(c) => {
                let mut out = String::from_str("invalid_character:");
                push_char(&mut out, *c);
                out
            },
            CodecError::InvalidByte => String::from_str("invalid_byte"),
            CodecError::NotUtf8 => String::from_str("not_utf8"),
        }
    }

    /// The user-facing text for this error.
    pub fn message(&self) -> (r: String)
        ensures
            r@ == error_message(*self),
    {
        match self {
            CodecError::InvalidLength => String::from_str("輸入長度必須是 3 的倍數，這不是合法的編碼字串。"),
            CodecError::InvalidCharacter(c) => {
                let mut out = String::from_str("包含非法字元「");
                push_char(&mut out, *c);
                out.append("」，編碼字串只能由 F U C K Y O u 組成。");
                out
            },
            CodecError::InvalidByte => String::from_str("包含無效的編碼組合，這不是由 FQEncoder 產生的字串。"),
            CodecError::NotUtf8 => String::from_str("解碼失敗，可能是密碼不正確，或這不是 FQEncoder 編出來的字串。"),
        }
    }
}

/// The seven symbols, in digit order.
pub open spec fn alphabet() -> Seq<char> {
    seq!['F', 'U', 'C', 'K', 'Y', 'O', 'u']
}

/// The three symbols that stand for byte `b`: its base-7 digits, high first.
pub open spec fn byte_symbols(b: u8) -> Seq<char> {
    seq![
        alphabet()[((b as int / 49) % 7) as int],
        alphabet()[((b as int / 7) % 7) as int],
        alphabet()[(b as int % 7) as int],
    ]
}

/// The packed form of a byte string.
pub open spec fn pack_spec(bytes: Seq<u8>) -> Seq<char>
    decreases bytes.len(),
{
    if bytes.len() == 0 {
        Seq::empty()
    } else {
        pack_spec(bytes.drop_last()) + byte_symbols(bytes.last())
    }
}

/// The digit that symbol `c` stands for, if it is in the alphabet.
pub open spec fn digit_spec(c: char) -> Option<int> {
    if alphabet().contains(c) {
        Some(alphabet().index_of(c))
    } else {
        None
    }
}

/// What one group of three symbols decodes to: the first symbol outside the
/// alphabet, or a value over 255, is an error.
pub open spec fn group_spec(c0: char, c1: char, c2: char) -> Result<u8, CodecError> {
    match (digit_spec(c0), digit_spec(c1), digit_spec(c2)) {
        (None, _, _) => Err(CodecError::InvalidCharacter(c0)),
        (Some(_), None, _) => Err(CodecError::InvalidCharacter(c1)),
        (Some(_), Some(_), None) => Err(CodecError::InvalidCharacter(c2)),
        (Some(d0), Some(d1), Some(d2)) => {
            let v = d0 * 49 + d1 * 7 + d2;
            if v > 255 {
                Err(CodecError::InvalidByte)
            } else {
                Ok(v as u8)
            }
        },
    }
}

/// Decodes the groups of `t` from the front; the first failing group decides.
pub open spec fn groups_spec(t: Seq<char>) -> Result<Seq<u8>, CodecError>
    decreases t.len(),
{
    if t.len() < 3 {
        Ok(Seq::empty())
    } else {
        match group_spec(t[0], t[1], t[2]) {
            Err(e) => Err(e),
            Ok(b) => match groups_spec(t.skip(3)) {
                Err(e) => Err(e),
                Ok(rest) => Ok(seq![b] + rest),
            },
        }
    }
}

/// The unpacked form of a symbol string.
pub open spec fn unpack_spec(t: Seq<char>) -> Result<Seq<u8>, CodecError> {
    if t.len() % 3 != 0 {
        Err(CodecError::InvalidLength)
    } else {
        groups_spec(t)
    }
}

/// The symbol for digit `d`.
fn symbol(d: u8) -> (c: char)
    requires
        d < 7,
    ensures
        c == alphabet()[d as int],
{
    match d {
        0 => 'F',
        1 => 'U',
        2 => 'C',
        3 => 'K',
        4 => 'Y',
        5 => 'O',
        _ => 'u',
    }
}

proof fn lemma_alphabet_index(i: int)
    requires
        0 <= i < 7,
    ensures
        alphabet().contains(alphabet()[i]),
        alphabet().index_of(alphabet()[i]) == i,
{
    let a = alphabet();
    assert(a.contains(a[i]));
    let j = a.index_of(a[i]);
    assert(0 <= j < 7 && a[j] == a[i]);
}

/// The digit that `c` stands for, or `None` when `c` is not in the alphabet.
pub fn value_of(c: char) -> (r: Option<u16>)
    ensures
        r matches Some(d) ==> digit_spec(c) == Some(d as int),
        r is None <==> digit_spec(c) is None,
{
    let r: Option<u16> = match c {
        'F' => Some(0),
        'U' => Some(1),
        'C' => Some(2),
        'K' => Some(3),
        'Y' => Some(4),
        'O' => Some(5),
        'u' => Some(6),
        _ => None,
    };
    proof {
        let a = alphabet();
        match r {
            Some(d) => {
                lemma_alphabet_index(d as int);
            },
            None => {
                assert(!a.contains(c));
            },
        }
    }
    r
}

/// Packs each byte into its three symbols.
pub fn pack_base7(bytes: &[u8]) -> (out: String)
    ensures
        out@ == pack_spec(bytes@),
{
    let mut out = String::new();
    let n = bytes.len();
    for i in 0..n
        invariant
            n == bytes@.len(),
            out@ == pack_spec(bytes@.take(i as int)),
    {
        let v = bytes[i];
        assert(bytes@.take(i + 1).drop_last() =~= bytes@.take(i as int));
        push_char(&mut out, symbol((v / 49) % 7));
        push_char(&mut out, symbol((v / 7) % 7));
        push_char(&mut out, symbol(v % 7));
    }
    assert(bytes@.take(n as int) =~= bytes@);
    out
}

/// Unpacks a symbol string into bytes, checking the length first and then
/// each group of three symbols from the front.
pub fn unpack_base7(input: &str) -> (r: Result<Vec<u8>, CodecError>)
    ensures
        r matches Ok(v) ==> unpack_spec(input@) == Ok::<Seq<u8>, CodecError>(v@),
        r matches Err(e) ==> unpack_spec(input@) == Err::<Seq<u8>, CodecError>(e),
{
    let chars = chars_of(input);
    let n = chars.len();
    if n % 3 != 0 {
        return Err(CodecError::InvalidLength);
    }
    let ghost t = chars@;
    let mut bytes: Vec<u8> = Vec::new();
    let mut i: usize = 0;
    proof {
        assert(t.skip(0) =~= t);
        match groups_spec(t) {
            Err(e) => {},
            Ok(rest) => {
                assert(bytes@ + rest =~= rest);
            },
        }
    }
    while i < n
        invariant
            t == chars@,
            t == input@,
            n == t.len(),
            n % 3 == 0,
            i % 3 == 0,
            i <= n,
            groups_spec(t) == match groups_spec(t.skip(i as int)) {
                Err(e) => Err(e),
                Ok(rest) => Ok(bytes@ + rest),
            },
        decreases n - i,
    {
        let c0 = chars[i];
        let c1 = chars[i + 1];
        let c2 = chars[i + 2];
        let ghost s = t.skip(i as int);
        assert(s.skip(3) =~= t.skip(i + 3));
        assert(s[0] == c0 && s[1] == c1 && s[2] == c2);
        assert(s.len() >= 3);
        assert(groups_spec(s) == match group_spec(c0, c1, c2) {
            Err(e) => Err(e),
            Ok(b) => match groups_spec(t.skip(i + 3)) {
                Err(e) => Err(e),
                Ok(rest) => Ok(seq![b] + rest),
            },
        });
        let d0 = match value_of(c0) {
            Some(d) => d,
            None => return Err(CodecError::InvalidCharacter(c0)),
        };
        let d1 = match value_of(c1) {
            Some(d) => d,
            None => return Err(CodecError::InvalidCharacter(c1)),
        };
        let d2 = match value_of(c2) {
            Some(d) => d,
            None => return Err(CodecError::InvalidCharacter(c2)),
        };
        proof {
            lemma_digit_range(c0);
            lemma_digit_range(c1);
            lemma_digit_range(c2);
        }
        let value = d0 * 49 + d1 * 7 + d2;
        if value > 255 {
            return Err(CodecError::InvalidByte);
        }
        let ghost old_bytes = bytes@;
        bytes.push(value as u8);
        proof {
            match groups_spec(t.skip(i + 3)) {
                Err(e) => {},
                Ok(rest) => {
                    assert(old_bytes + (seq![value as u8] + rest) =~= bytes@ + rest);
                },
            }
        }
        i = i + 3;
    }
    assert(t.skip(n as int).len() == 0);
    assert(bytes@ + Seq::<u8>::empty() =~= bytes@);
    Ok(bytes)
}

proof fn lemma_digit_range(c: char)
    ensures
        digit_spec(c) matches Some(d) ==> 0 <= d < 7,
{
    let a = alphabet();
    if a.contains(c) {
        let j = a.index_of(c);
        assert(0 <= j < a.len());
    }
}

proof fn lemma_digits_of_byte(x: int)
    requires
        0 <= x < 256,
    ensures
        0 <= (x / 49) % 7 < 7,
        0 <= (x / 7) % 7 < 7,
        0 <= x % 7 < 7,
        (x / 49) % 7 * 49 + (x / 7) % 7 * 7 + x % 7 == x,
{
    assert((x / 49) % 7 * 49 + (x / 7) % 7 * 7 + x % 7 == x) by (nonlinear_arith)
        requires
            0 <= x < 256,
    ;
}

proof fn lemma_byte_of_digits(d0: int, d1: int, d2: int)
    requires
        0 <= d0 < 7,
        0 <= d1 < 7,
        0 <= d2 < 7,
    ensures
        ({
            let v = d0 * 49 + d1 * 7 + d2;
            &&& (v / 49) % 7 == d0
            &&& (v / 7) % 7 == d1
            &&& v % 7 == d2
        }),
{
    let v = d0 * 49 + d1 * 7 + d2;
    assert((v / 49) % 7 == d0 && (v / 7) % 7 == d1 && v % 7 == d2) by (nonlinear_arith)
        requires
            0 <= d0 < 7,
            0 <= d1 < 7,
            0 <= d2 < 7,
            v == d0 * 49 + d1 * 7 + d2,
    ;
}

/// Packing a byte in front packs it in front.
proof fn lemma_pack_prepend(x: u8, rest: Seq<u8>)
    ensures
        pack_spec(seq![x] + rest) == byte_symbols(x) + pack_spec(rest),
    decreases rest.len(),
{
    if rest.len() == 0 {
        assert(rest =~= Seq::<u8>::empty());
        assert(seq![x] + rest =~= seq![x]);
        assert(seq![x].drop_last() =~= Seq::<u8>::empty());
        assert(byte_symbols(x) + pack_spec(rest) =~= byte_symbols(x));
        assert(Seq::<char>::empty() + byte_symbols(x) =~= byte_symbols(x));
    } else {
        let s = seq![x] + rest;
        assert(s.drop_last() =~= seq![x] + rest.drop_last());
        assert(s.last() == rest.last());
        lemma_pack_prepend(x, rest.drop_last());
        assert(byte_symbols(x) + pack_spec(rest.drop_last()) + byte_symbols(rest.last())
            =~= byte_symbols(x) + (pack_spec(rest.drop_last()) + byte_symbols(rest.last())));
    }
}

/// Three symbols per byte.
pub proof fn lemma_pack_len(bytes: Seq<u8>)
    ensures
        pack_spec(bytes).len() == 3 * bytes.len(),
    decreases bytes.len(),
{
    if bytes.len() > 0 {
        lemma_pack_len(bytes.drop_last());
    }
}

proof fn lemma_group_of_symbols(x: u8)
    ensures
        group_spec(byte_symbols(x)[0], byte_symbols(x)[1], byte_symbols(x)[2]) == Ok::<u8, CodecError>(x),
{
    lemma_digits_of_byte(x as int);
    lemma_alphabet_index((x as int / 49) % 7);
    lemma_alphabet_index((x as int / 7) % 7);
    lemma_alphabet_index(x as int % 7);
}

/// Unpacking undoes packing.
pub proof fn lemma_unpack_pack(bytes: Seq<u8>)
    ensures
        unpack_spec(pack_spec(bytes)) == Ok::<Seq<u8>, CodecError>(bytes),
{
    lemma_pack_len(bytes);
    lemma_groups_pack(bytes);
}

proof fn lemma_groups_pack(bytes: Seq<u8>)
    ensures
        groups_spec(pack_spec(bytes)) == Ok::<Seq<u8>, CodecError>(bytes),
    decreases bytes.len(),
{
    if bytes.len() == 0 {
        assert(bytes =~= Seq::<u8>::empty());
    } else {
        let x = bytes[0];
        let rest = bytes.drop_first();
        assert(bytes =~= seq![x] + rest);
        lemma_pack_prepend(x, rest);
        lemma_pack_len(rest);
        let t = pack_spec(bytes);
        assert(t[0] == byte_symbols(x)[0] && t[1] == byte_symbols(x)[1] && t[2] == byte_symbols(x)[2]);
        assert(t.skip(3) =~= pack_spec(rest));
        lemma_group_of_symbols(x);
        lemma_groups_pack(rest);
        assert(t.len() >= 3);
        assert(groups_spec(t) == Ok::<Seq<u8>, CodecError>(seq![x] + rest));
    }
}

/// A symbol string that unpacks is exactly the packing of what it unpacks to.
pub proof fn lemma_pack_unpack(t: Seq<char>)
    requires
        unpack_spec(t) is Ok,
    ensures
        pack_spec(unpack_spec(t)->Ok_0) == t,
{
    lemma_groups_unpack(t);
}

proof fn lemma_groups_unpack(t: Seq<char>)
    requires
        t.len() % 3 == 0,
        groups_spec(t) is Ok,
    ensures
        pack_spec(groups_spec(t)->Ok_0) == t,
    decreases t.len(),
{
    if t.len() == 0 {
        assert(t =~= Seq::<char>::empty());
    } else {
        let rest_t = t.skip(3);
        lemma_groups_unpack(rest_t);
        let x = group_spec(t[0], t[1], t[2])->Ok_0;
        lemma_digit_range(t[0]);
        lemma_digit_range(t[1]);
        lemma_digit_range(t[2]);
        let d0 = digit_spec(t[0])->Some_0;
        let d1 = digit_spec(t[1])->Some_0;
        let d2 = digit_spec(t[2])->Some_0;
        lemma_byte_of_digits(d0, d1, d2);
        assert(x as int == d0 * 49 + d1 * 7 + d2);
        lemma_digit_symbol(t[0]);
        lemma_digit_symbol(t[1]);
        lemma_digit_symbol(t[2]);
        assert(byte_symbols(x) =~= t.take(3));
        let rest_b = groups_spec(rest_t)->Ok_0;
        lemma_pack_prepend(x, rest_b);
        assert(t =~= t.take(3) + rest_t);
    }
}

proof fn lemma_digit_symbol(c: char)
    requires
        digit_spec(c) is Some,
    ensures
        alphabet()[digit_spec(c)->Some_0] == c,
{
    let a = alphabet();
    assert(a.contains(c));
}

/// Every symbol of a packed string is in the alphabet.
pub proof fn lemma_pack_digits(bytes: Seq<u8>)
    ensures
        forall|i: int| 0 <= i < pack_spec(bytes).len() ==> (#[trigger] digit_spec(pack_spec(bytes)[i])) is Some,
    decreases bytes.len(),
{
    if bytes.len() > 0 {
        let x = bytes.last();
        lemma_pack_digits(bytes.drop_last());
        lemma_digits_of_byte(x as int);
        lemma_alphabet_index((x as int / 49) % 7);
        lemma_alphabet_index((x as int / 7) % 7);
        lemma_alphabet_index(x as int % 7);
        let p = pack_spec(bytes.drop_last());
        assert forall|i: int| 0 <= i < pack_spec(bytes).len() implies (#[trigger] digit_spec(pack_spec(bytes)[i])) is Some by {
            if i < p.len() {
                assert(pack_spec(bytes)[i] == p[i]);
            } else {
                assert(pack_spec(bytes)[i] == byte_symbols(x)[i - p.len()]);
            }
        }
    }
}

/// Byte `m` of a byte string packs into the symbols at `3 * m`, `3 * m + 1`
/// and `3 * m + 2`: its base-7 digits `(b / 49) % 7`, `(b / 7) % 7` and
/// `b % 7` taken from `F U C K Y O u`, for every byte string.
pub proof fn lemma_pack_symbols(bytes: Seq<u8>, m: int)
    requires
        0 <= m < bytes.len(),
    ensures
        pack_spec(bytes).len() == 3 * bytes.len(),
        pack_spec(bytes)[3 * m] == seq!['F', 'U', 'C', 'K', 'Y', 'O', 'u'][(bytes[m] as int / 49) % 7],
        pack_spec(bytes)[3 * m + 1] == seq!['F', 'U', 'C', 'K', 'Y', 'O', 'u'][(bytes[m] as int / 7) % 7],
        pack_spec(bytes)[3 * m + 2] == seq!['F', 'U', 'C', 'K', 'Y', 'O', 'u'][bytes[m] as int % 7],
    decreases bytes.len(),
{
    lemma_pack_len(bytes);
    let init = bytes.drop_last();
    lemma_pack_len(init);
    if m < init.len() {
        lemma_pack_symbols(init, m);
        assert(init[m] == bytes[m]);
    }
}

/// Three alphabet symbols with digits `d0`, `d1`, `d2` unpack to the byte
/// `d0 * 49 + d1 * 7 + d2` when that is at most 255, and are an invalid byte
/// otherwise.
pub proof fn lemma_unpack_group(d0: int, d1: int, d2: int)
    requires
        0 <= d0 < 7,
        0 <= d1 < 7,
        0 <= d2 < 7,
    ensures
        ({
            let a = seq!['F', 'U', 'C', 'K', 'Y', 'O', 'u'];
            let v = d0 * 49 + d1 * 7 + d2;
            unpack_spec(seq![a[d0], a[d1], a[d2]]) == if v <= 255 {
                Ok::<Seq<u8>, CodecError>(seq![v as u8])
            } else {
                Err::<Seq<u8>, CodecError>(CodecError::InvalidByte)
            }
        }),
{
    let a = seq!['F', 'U', 'C', 'K', 'Y', 'O', 'u'];
    assert(a =~= alphabet());
    lemma_alphabet_index(d0);
    lemma_alphabet_index(d1);
    lemma_alphabet_index(d2);
    let t = seq![a[d0], a[d1], a[d2]];
    assert(t.skip(3) =~= Seq::<char>::empty());
    assert(groups_spec(t.skip(3)) == Ok::<Seq<u8>, CodecError>(Seq::empty()));
    let v = d0 * 49 + d1 * 7 + d2;
    if v <= 255 {
        assert(seq![v as u8] + Seq::<u8>::empty() =~= seq![v as u8]);
    }
}

/// A symbol string that unpacks has a whole number of groups, all of
/// alphabet symbols.
pub proof fn lemma_unpack_ok_digits(t: Seq<char>)
    requires
        unpack_spec(t) is Ok,
    ensures
        t.len() % 3 == 0,
        forall|i: int| 0 <= i < t.len() ==> (#[trigger] digit_spec(t[i])) is Some,
{
    lemma_groups_ok_digits(t);
}

proof fn lemma_groups_ok_digits(t: Seq<char>)
    requires
        t.len() % 3 == 0,
        groups_spec(t) is Ok,
    ensures
        forall|i: int| 0 <= i < t.len() ==> (#[trigger] digit_spec(t[i])) is Some,
    decreases t.len(),
{
    if t.len() > 0 {
        let rest = t.skip(3);
        lemma_groups_ok_digits(rest);
        assert forall|i: int| 0 <= i < t.len() implies (#[trigger] digit_spec(t[i])) is Some by {
            if i >= 3 {
                assert(t[i] == rest[i - 3]);
            }
        }
    }
}

} // verus!
