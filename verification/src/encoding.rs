//! `HEX`, `UNHEX`, `TO_BASE64` and `FROM_BASE64` over bytes.
use crate::chars::{chars_of, string_of};
use vstd::string::StringSliceAdditionalSpecFns;
use vstd::prelude::*;

verus! {

/// The upper-case hexadecimal digit of a nibble.
pub open spec fn hex_digit(n: int) -> char {
    if n < 10 { (n + 48) as char } else { (n + 55) as char }
}

/// `HEX`: two upper-case digits per byte.
pub open spec fn hex_text(bytes: Seq<u8>) -> Seq<char>
    decreases bytes.len(),
{
    if bytes.len() == 0 {
        Seq::empty()
    } else {
        hex_text(bytes.drop_last()) + seq![hex_digit((bytes.last() / 16) as int), hex_digit((bytes.last() % 16) as int)]
    }
}

fn hex_digit_char(n: u8) -> (c: char)
    requires
        n < 16,
    ensures
        c == hex_digit(n as int),
{
    if n < 10 { (n + 48) as char } else { (n + 55) as char }
}

/// `HEX` of bytes: two upper-case hexadecimal digits per byte.
pub fn hex_upper(bytes: &[u8]) -> (r: String)
    ensures
        r@ == hex_text(bytes@),
{
    let mut out: Vec<char> = Vec::new();
    let mut i: usize = 0;
    while i < bytes.len()
        invariant
            i <= bytes@.len(),
            out@ == hex_text(bytes@.subrange(0, i as int)),
        decreases bytes@.len() - i,
    {
        let b = bytes[i];
        out.push(hex_digit_char(b / 16));
        out.push(hex_digit_char(b % 16));
        proof {
            let t = bytes@.subrange(0, i + 1);
            assert(t.drop_last() =~= bytes@.subrange(0, i as int));
        }
        i = i + 1;
        assert(out@ =~= hex_text(bytes@.subrange(0, i as int)));
    }
    assert(bytes@.subrange(0, bytes@.len() as int) =~= bytes@);
    string_of(out.as_slice())
}

/// The value of a hexadecimal digit byte, either case.
pub open spec fn nibble(b: u8) -> Option<u8> {
    if 48 <= b <= 57 {
        Some((b - 48) as u8)
    } else if 97 <= b <= 102 {
        Some((b - 87) as u8)
    } else if 65 <= b <= 70 {
        Some((b - 55) as u8)
    } else {
        None
    }
}

/// Whether every byte is a hexadecimal digit.
pub open spec fn all_hex(s: Seq<u8>) -> bool {
    forall|i: int| 0 <= i < s.len() ==> (#[trigger] nibble(s[i])) is Some
}

/// The nibbles of hexadecimal text, a zero nibble first when the count is
/// odd.
pub open spec fn nibbles(s: Seq<u8>) -> Seq<u8> {
    let values = Seq::new(s.len(), |i: int| nibble(s[i]).unwrap());
    if s.len() % 2 == 1 { seq![0u8] + values } else { values }
}

/// `UNHEX`: pairs of hexadecimal digits as bytes, an odd-length argument
/// left-padded with a zero nibble; `None` on any other byte.
pub open spec fn unhex_bytes(s: Seq<u8>) -> Option<Seq<u8>> {
    if !all_hex(s) {
        None
    } else {
        let n = nibbles(s);
        Some(Seq::new(n.len() / 2, |i: int| (n[2 * i] * 16 + n[2 * i + 1]) as u8))
    }
}

/// The nibbles of the first `i` bytes, with the odd-length zero nibble.
pub open spec fn nibbles_to(s: Seq<u8>, i: int) -> Seq<u8> {
    (if s.len() % 2 == 1 { seq![0u8] } else { Seq::<u8>::empty() }) + Seq::new(i as nat, |m: int| nibble(s[m]).unwrap())
}

fn nibble_of(b: u8) -> (r: Option<u8>)
    ensures
        r == nibble(b),
{
    if 48 <= b && b <= 57 {
        Some(b - 48)
    } else if 97 <= b && b <= 102 {
        Some(b - 87)
    } else if 65 <= b && b <= 70 {
        Some(b - 55)
    } else {
        None
    }
}

/// `MySQL` `UNHEX`: decode hex pairs, `None` on any byte that is not a hex
/// digit. It decodes bytes rather than string slices, so a multibyte
/// character yields `None` rather than a cut through its encoding.
pub fn unhex(text: &str) -> (r: Option<Vec<u8>>)
    ensures
        r matches Some(v) ==> unhex_bytes(text.spec_bytes()) == Some(v@),
        r is None ==> unhex_bytes(text.spec_bytes()) is None,
{
    let bytes = text.as_bytes();
    let ghost s = bytes@;
    let odd = bytes.len() % 2 != 0;
    let mut output: Vec<u8> = Vec::new();
    let mut high: Option<u8> = if odd { Some(0) } else { None };
    let ghost offset: int = if odd { 1 } else { 0 };
    let mut i: usize = 0;
    while i < bytes.len()
        invariant
            i <= s.len(),
            s == bytes@,
            s == text.spec_bytes(),
            offset == (if s.len() % 2 == 1 { 1int } else { 0int }),
            forall|j: int| 0 <= j < i ==> (#[trigger] nibble(s[j])) is Some,
            (i + offset) % 2 == 0 ==> high is None,
            (i + offset) % 2 == 1 ==> (high matches Some(h) && h < 16 && h == nibbles_to(s, i as int)[i + offset - 1]),
            output@.len() == (i + offset) / 2,
            forall|k: int| 0 <= k < output@.len() ==> output@[k] == (nibbles_to(s, i as int)[2 * k] * 16 + nibbles_to(s, i as int)[2 * k + 1]) as u8,
        decreases s.len() - i,
    {
        let value = match nibble_of(bytes[i]) {
            Some(v) => v,
            None => {
                proof {
                    assert(nibble(s[i as int]) is None);
                    assert(!all_hex(s));
                }
                return None;
            },
        };
        let ghost before = nibbles_to(s, i as int);
        let ghost after = nibbles_to(s, i + 1);
        assert forall|m: int| 0 <= m < before.len() implies after[m] == before[m] by {}
        assert(after[i + offset] == value);
        match high {
            None => {
                high = Some(value);
            },
            Some(leading) => {
                output.push(leading * 16 + value);
                high = None;
            },
        }
        i = i + 1;
    }
    proof {
        assert(all_hex(s));
        assert(nibbles(s) =~= nibbles_to(s, i as int));
        assert(output@ =~= unhex_bytes(s).unwrap());
    }
    Some(output)
}


/// The base64 alphabet: `A-Z`, `a-z`, `0-9`, `+`, `/`.
pub open spec fn base64_char(i: int) -> char {
    if i < 26 { (i + 65) as char }
    else if i < 52 { (i + 71) as char }
    else if i < 62 { (i - 4) as char }
    else if i == 62 { '+' }
    else { '/' }
}

/// The position of a byte in the base64 alphabet.
pub open spec fn base64_value(b: u8) -> Option<int> {
    if 65 <= b <= 90 { Some(b - 65) }
    else if 97 <= b <= 122 { Some(b - 71) }
    else if 48 <= b <= 57 { Some(b + 4) }
    else if b == 43 { Some(62) }
    else if b == 47 { Some(63) }
    else { None }
}

/// The 24-bit word of a group of one to three bytes, missing bytes zero.
pub open spec fn group_word(c: Seq<u8>) -> int {
    c[0] * 65536 + (if c.len() > 1 { c[1] * 256 } else { 0int }) + (if c.len() > 2 { c[2] as int } else { 0int })
}

/// The four characters of one group: a six-bit digit for each byte and
/// the one after it, `=` for the rest.
pub open spec fn group_chars(c: Seq<u8>) -> Seq<char> {
    let w = group_word(c);
    Seq::new(4, |j: int| if j <= c.len() {
        base64_char((w / (if j == 0 { 262144int } else if j == 1 { 4096int } else if j == 2 { 64int } else { 1int })) % 64)
    } else {
        '='
    })
}

/// The first `k` groups of `s`, encoded.
pub open spec fn base64_groups(s: Seq<u8>, k: nat) -> Seq<char>
    decreases k,
{
    if k == 0 {
        Seq::empty()
    } else {
        let start = 3 * (k - 1);
        let end = if 3 * k > s.len() { s.len() as int } else { (3 * k) as int };
        base64_groups(s, (k - 1) as nat) + group_chars(s.subrange(start, end))
    }
}

/// `TO_BASE64`: each group of three bytes as four characters, the last
/// group padded with `=`.
pub open spec fn base64_text(s: Seq<u8>) -> Seq<char> {
    base64_groups(s, ((s.len() + 2) / 3) as nat)
}

fn base64_digit(i: u32) -> (c: char)
    requires
        i < 64,
    ensures
        c == base64_char(i as int),
{
    if i < 26 {
        ((i + 65) as u8) as char
    } else if i < 52 {
        ((i + 71) as u8) as char
    } else if i < 62 {
        ((i - 4) as u8) as char
    } else if i == 62 {
        '+'
    } else {
        '/'
    }
}

/// `MySQL` `TO_BASE64`.
pub fn base64_encode(bytes: &[u8]) -> (r: String)
    ensures
        r@ == base64_text(bytes@),
{
    let mut out: Vec<char> = Vec::new();
    let mut start: usize = 0;
    let ghost mut k: nat = 0;
    while start < bytes.len()
        invariant
            start == (if 3 * k > bytes@.len() { bytes@.len() as int } else { (3 * k) as int }),
            k <= (bytes@.len() + 2) / 3,
            start < bytes@.len() ==> k < (bytes@.len() + 2) / 3,
            out@ == base64_groups(bytes@, k),
        decreases bytes@.len() + 3 - start,
    {
        let remaining = bytes.len() - start;
        let length: usize = if remaining > 3 { 3 } else { remaining };
        let b0 = bytes[start] as u32;
        let b1: u32 = if length > 1 { bytes[start + 1] as u32 } else { 0 };
        let b2: u32 = if length > 2 { bytes[start + 2] as u32 } else { 0 };
        let word: u32 = b0 * 65536 + b1 * 256 + b2;
        let ghost group = bytes@.subrange(start as int, start + length);
        assert(word == group_word(group));
        let ghost before = out@;
        out.push(base64_digit((word / 262144) % 64));
        out.push(base64_digit((word / 4096) % 64));
        if length >= 2 {
            out.push(base64_digit((word / 64) % 64));
        } else {
            out.push('=');
        }
        if length >= 3 {
            out.push(base64_digit(word % 64));
        } else {
            out.push('=');
        }
        proof {
            assert(word / 1 == word);
            assert(out@ =~= before + group_chars(group));
            let end = if 3 * (k + 1) > bytes@.len() { bytes@.len() as int } else { (3 * (k + 1)) as int };
            assert(end == start + length);
            k = k + 1;
        }
        start = start + length;
        proof {
            if start >= bytes@.len() {
                assert(k == (bytes@.len() + 2) / 3);
            }
        }
    }
    proof {
        if bytes@.len() == 0 {
            assert(k == 0);
        }
    }
    string_of(out.as_slice())
}

/// Whether `FROM_BASE64` skips a byte: ASCII white space, and the vertical
/// tab, which `MySQL` counts as white space too.
pub open spec fn skipped(b: u8) -> bool {
    b == 32 || (9 <= b <= 13)
}

/// The bytes `FROM_BASE64` decodes, white space removed.
pub open spec fn without_space(s: Seq<u8>) -> Seq<u8>
    decreases s.len(),
{
    if s.len() == 0 {
        Seq::empty()
    } else if skipped(s.last()) {
        without_space(s.drop_last())
    } else {
        without_space(s.drop_last()).push(s.last())
    }
}

/// The number of trailing `=` in a group of four.
pub open spec fn padding_of(c: Seq<u8>) -> int {
    if c[3] != 61 { 0 }
    else if c[2] != 61 { 1 }
    else if c[1] != 61 { 2 }
    else if c[0] != 61 { 3 }
    else { 4 }
}

/// The six-bit value of a group byte, `=` reading as zero.
pub open spec fn group_digit(b: u8) -> Option<int> {
    if b == 61 { Some(0) } else { base64_value(b) }
}

/// One group of four characters decoded: `None` for more than two `=`, an
/// `=` before the padding, or a byte outside the alphabet.
pub open spec fn decode_group(c: Seq<u8>) -> Option<Seq<u8>> {
    let padding = padding_of(c);
    if padding > 2 || (exists|i: int| 0 <= i < 4 - padding && c[i] == 61) {
        None
    } else {
        match (group_digit(c[0]), group_digit(c[1]), group_digit(c[2]), group_digit(c[3])) {
            (Some(a), Some(b), Some(x), Some(y)) => {
                let word = a * 262144 + b * 4096 + x * 64 + y;
                Some(Seq::new((3 - padding) as nat, |p: int| ((word / (if p == 0 { 65536int } else if p == 1 { 256int } else { 1int })) % 256) as u8))
            },
            _ => None,
        }
    }
}

/// The first `k` groups of four decoded.
pub open spec fn decode_groups(s: Seq<u8>, k: nat) -> Option<Seq<u8>>
    decreases k,
{
    if k == 0 {
        Some(Seq::empty())
    } else {
        match decode_groups(s, (k - 1) as nat) {
            None => None,
            Some(prefix) => match decode_group(s.subrange(4 * (k - 1), (4 * k) as int)) {
                None => None,
                Some(bytes) => Some(prefix + bytes),
            },
        }
    }
}

/// `FROM_BASE64`: white space skipped, then groups of four decoded;
/// `None` when the rest is not whole groups or a group is malformed.
pub open spec fn base64_bytes(s: Seq<u8>) -> Option<Seq<u8>> {
    let cleaned = without_space(s);
    if cleaned.len() % 4 != 0 {
        None
    } else {
        decode_groups(cleaned, (cleaned.len() / 4) as nat)
    }
}

fn group_digit_of(b: u8) -> (r: Option<u32>)
    ensures
        r matches Some(v) ==> group_digit(b) == Some(v as int) && v < 64,
        r is None ==> group_digit(b) is None,
{
    if b == 61 {
        Some(0)
    } else if 65 <= b && b <= 90 {
        Some((b - 65) as u32)
    } else if 97 <= b && b <= 122 {
        Some((b - 71) as u32)
    } else if 48 <= b && b <= 57 {
        Some((b + 4) as u32)
    } else if b == 43 {
        Some(62)
    } else if b == 47 {
        Some(63)
    } else {
        None
    }
}

/// Once a group fails, every longer run of groups fails.
proof fn lemma_decode_groups_fail(s: Seq<u8>, k: nat, n: nat)
    requires
        decode_groups(s, k) is None,
        k <= n,
    ensures
        decode_groups(s, n) is None,
    decreases n - k,
{
    if k < n {
        lemma_decode_groups_fail(s, k, (n - 1) as nat);
    }
}

/// `MySQL` `FROM_BASE64`. `MySQL` skips white space between groups, the
/// vertical tab included.
pub fn base64_decode(text: &str) -> (r: Option<Vec<u8>>)
    ensures
        r matches Some(v) ==> base64_bytes(text.spec_bytes()) == Some(v@),
        r is None ==> base64_bytes(text.spec_bytes()) is None,
{
    let bytes = text.as_bytes();
    let mut cleaned: Vec<u8> = Vec::new();
    let mut i: usize = 0;
    while i < bytes.len()
        invariant
            i <= bytes@.len(),
            cleaned@ == without_space(bytes@.subrange(0, i as int)),
        decreases bytes@.len() - i,
    {
        let b = bytes[i];
        if !(b == 32 || (9 <= b && b <= 13)) {
            cleaned.push(b);
        }
        proof {
            let t = bytes@.subrange(0, i + 1);
            assert(t.drop_last() =~= bytes@.subrange(0, i as int));
        }
        i = i + 1;
    }
    assert(bytes@.subrange(0, bytes@.len() as int) =~= bytes@);
    assert(cleaned@ == without_space(text.spec_bytes()));
    if cleaned.len() % 4 != 0 {
        return None;
    }
    let mut output: Vec<u8> = Vec::new();
    let mut start: usize = 0;
    let ghost mut k: nat = 0;
    let ghost total: nat = (cleaned@.len() / 4) as nat;
    while start < cleaned.len()
        invariant
            start == 4 * k,
            total == cleaned@.len() / 4,
            cleaned@ == without_space(text.spec_bytes()),
            cleaned@.len() % 4 == 0,
            start <= cleaned@.len(),
            decode_groups(cleaned@, k) == Some(output@),
        decreases cleaned@.len() - start,
    {
        let ghost group = cleaned@.subrange(start as int, start + 4);
        let c0 = cleaned[start];
        let c1 = cleaned[start + 1];
        let c2 = cleaned[start + 2];
        let c3 = cleaned[start + 3];
        let padding: usize = if c3 != 61 { 0 } else if c2 != 61 { 1 } else if c1 != 61 { 2 } else if c0 != 61 { 3 } else { 4 };
        assert(padding == padding_of(group));
        if padding > 2 {
            proof {
                assert(decode_group(group) is None);
                assert(decode_groups(cleaned@, k + 1) is None);
                lemma_decode_groups_fail(cleaned@, k + 1, total);
            }
            return None;
        }
        if c0 == 61 || (padding < 3 && c1 == 61) || (padding < 2 && c2 == 61) || (padding < 1 && c3 == 61) {
            proof {
                if c0 == 61 {
                    assert(group[0] == 61);
                } else if c1 == 61 {
                    assert(group[1] == 61);
                } else if c2 == 61 {
                    assert(group[2] == 61);
                } else {
                    assert(group[3] == 61);
                }
                assert(decode_group(group) is None);
                assert(decode_groups(cleaned@, k + 1) is None);
                lemma_decode_groups_fail(cleaned@, k + 1, total);
            }
            return None;
        }
        let digits = (group_digit_of(c0), group_digit_of(c1), group_digit_of(c2), group_digit_of(c3));
        let (d0, d1, d2, d3) = match digits {
            (Some(a), Some(b), Some(x), Some(y)) => (a, b, x, y),
            _ => {
                proof {
                    assert(!(exists|j: int| 0 <= j < 4 - padding && group[j] == 61));
                    assert(decode_group(group) is None);
                    assert(decode_groups(cleaned@, k + 1) is None);
                    lemma_decode_groups_fail(cleaned@, k + 1, total);
                }
                return None;
            },
        };
        let word: u32 = d0 * 262144 + d1 * 4096 + d2 * 64 + d3;
        let ghost before = output@;
        output.push(((word / 65536) % 256) as u8);
        if padding < 2 {
            output.push(((word / 256) % 256) as u8);
        }
        if padding < 1 {
            output.push((word % 256) as u8);
        }
        proof {
            assert(!(exists|j: int| 0 <= j < 4 - padding && group[j] == 61));
            assert(word / 1 == word);
            assert(decode_group(group) == Some(output@.subrange(before.len() as int, output@.len() as int)));
            assert(output@ =~= before + output@.subrange(before.len() as int, output@.len() as int));
            k = k + 1;
        }
        start = start + 4;
    }
    assert(k == total);
    Some(output)
}

} // verus!

verus! {

/// A text broken with `\n` after every 76 characters.
pub open spec fn wrapped76(s: Seq<char>) -> Seq<char>
    decreases s.len(),
{
    if s.len() <= 76 {
        s
    } else {
        s.take(76) + seq!['\n'] + wrapped76(s.skip(76))
    }
}

/// `TO_BASE64`: the encoding broken into lines of 76 characters, as
/// `MySQL` writes it (58 bytes encode to 81 characters, not 80).
pub fn to_base64(bytes: &[u8]) -> (r: String)
    ensures
        r@ == wrapped76(base64_text(bytes@)),
{
    let encoded = chars_of(base64_encode(bytes).as_str());
    let len = encoded.len();
    let mut out: Vec<char> = Vec::new();
    let mut i: usize = 0;
    assert(encoded@.skip(0) =~= encoded@);
    while len - i > 76
        invariant
            len == encoded@.len(),
            i <= len,
            out@ + wrapped76(encoded@.skip(i as int)) == wrapped76(encoded@),
        decreases len - i,
    {
        let ghost rest = encoded@.skip(i as int);
        let ghost before = out@;
        let mut k: usize = 0;
        while k < 76
            invariant
                len == encoded@.len(),
                i + 76 < len,
                k <= 76,
                out@ == before + encoded@.subrange(i as int, i + k),
            decreases 76 - k,
        {
            out.push(encoded[i + k]);
            k = k + 1;
            assert(out@ =~= before + encoded@.subrange(i as int, i + k));
        }
        out.push('\n');
        proof {
            assert(rest.take(76) =~= encoded@.subrange(i as int, i + 76));
            assert(rest.skip(76) =~= encoded@.skip(i + 76));
            assert(out@ + wrapped76(encoded@.skip(i + 76)) =~= before + wrapped76(rest));
        }
        i = i + 76;
    }
    let ghost before = out@;
    let mut k = i;
    while k < len
        invariant
            len == encoded@.len(),
            i <= k <= len,
            out@ == before + encoded@.subrange(i as int, k as int),
        decreases len - k,
    {
        out.push(encoded[k]);
        k = k + 1;
        assert(out@ =~= before + encoded@.subrange(i as int, k as int));
    }
    assert(encoded@.subrange(i as int, len as int) =~= encoded@.skip(i as int));
    string_of(out.as_slice())
}

} // verus!

verus! {

/// The characters of `HEX` output, two per byte: the high nibble's digit,
/// then the low nibble's.
proof fn lemma_hex_text_shape(bytes: Seq<u8>)
    ensures
        hex_text(bytes).len() == 2 * bytes.len(),
        forall|k: int|
            0 <= k < bytes.len() ==> hex_text(bytes)[2 * k] == hex_digit((bytes[k] / 16) as int)
                && hex_text(bytes)[2 * k + 1] == hex_digit((bytes[k] % 16) as int),
    decreases bytes.len(),
{
    if bytes.len() > 0 {
        let rest = bytes.drop_last();
        lemma_hex_text_shape(rest);
        assert forall|k: int| 0 <= k < bytes.len() implies hex_text(bytes)[2 * k] == hex_digit(
            (bytes[k] / 16) as int,
        ) && hex_text(bytes)[2 * k + 1] == hex_digit((bytes[k] % 16) as int) by {
            if k < rest.len() {
                assert(bytes[k] == rest[k]);
            }
        }
    }
}

/// A hexadecimal digit is ASCII and reads back as its nibble.
proof fn lemma_hex_digit_reads_back(n: int)
    requires
        0 <= n < 16,
    ensures
        '\0' <= hex_digit(n) <= '\u{7f}',
        nibble(hex_digit(n) as u8) == Some(n as u8),
{
}

/// `UNHEX` undoes `HEX`: the upper-case hexadecimal text of any bytes,
/// encoded as UTF-8, decodes to those bytes.
pub proof fn law_unhex_undoes_hex(bytes: Seq<u8>)
    ensures
        unhex_bytes(vstd::utf8::encode_utf8(hex_text(bytes))) == Some(bytes),
{
    let text = hex_text(bytes);
    lemma_hex_text_shape(bytes);
    assert forall|i: int| 0 <= i < text.len() implies '\0' <= #[trigger] text[i] <= '\u{7f}'
        && nibble(text[i] as u8) is Some by {
        let k = i / 2;
        if i % 2 == 0 {
            assert(i == 2 * k);
            lemma_hex_digit_reads_back((bytes[k] / 16) as int);
        } else {
            assert(i == 2 * k + 1);
            lemma_hex_digit_reads_back((bytes[k] % 16) as int);
        }
    }
    assert(vstd::utf8::is_ascii_chars(text));
    vstd::utf8::is_ascii_chars_encode_utf8(text);
    let s = vstd::utf8::encode_utf8(text);
    assert(all_hex(s)) by {
        assert forall|i: int| 0 <= i < s.len() implies (#[trigger] nibble(s[i])) is Some by {
            assert(s[i] == text[i] as u8);
        }
    }
    let n = nibbles(s);
    assert(s.len() % 2 == 0);
    assert forall|k: int| 0 <= k < bytes.len() implies n[2 * k] == bytes[k] / 16 && n[2 * k + 1]
        == bytes[k] % 16 by {
        assert(s[2 * k] == text[2 * k] as u8);
        assert(s[2 * k + 1] == text[2 * k + 1] as u8);
        lemma_hex_digit_reads_back((bytes[k] / 16) as int);
        lemma_hex_digit_reads_back((bytes[k] % 16) as int);
    }
    let decoded = unhex_bytes(s).unwrap();
    assert(decoded.len() == bytes.len());
    assert forall|k: int| 0 <= k < bytes.len() implies decoded[k] == bytes[k] by {
        assert(n[2 * k] == bytes[k] / 16 && n[2 * k + 1] == bytes[k] % 16);
        let b = bytes[k];
        assert((b / 16) * 16 + b % 16 == b);
    }
    assert(decoded =~= bytes);
}

} // verus!

verus! {

/// Characters as the bytes of their ASCII codes.
pub open spec fn ascii_bytes(t: Seq<char>) -> Seq<u8> {
    Seq::new(t.len(), |i: int| t[i] as u8)
}

/// The arithmetic of one base64 group: the four six-bit digits of a
/// 24-bit word rebuild the word, and its bytes come back out of it.
proof fn lemma_group_word_digits(c0: int, c1: int, c2: int)
    requires
        0 <= c0 < 256,
        0 <= c1 < 256,
        0 <= c2 < 256,
    ensures
        ({
            let w = c0 * 65536 + c1 * 256 + c2;
            &&& ((w / 262144) % 64) * 262144 + ((w / 4096) % 64) * 4096 + ((w / 64) % 64) * 64 + (
            w % 64) == w
            &&& (w / 65536) % 256 == c0
            &&& (w / 256) % 256 == c1
            &&& w % 256 == c2
        }),
        ({
            let w = c0 * 65536 + c1 * 256;
            ((w / 262144) % 64) * 262144 + ((w / 4096) % 64) * 4096 + ((w / 64) % 64) * 64 == w
        }),
        ({
            let w = c0 * 65536;
            ((w / 262144) % 64) * 262144 + ((w / 4096) % 64) * 4096 == w
        }),
{
    let w = c0 * 65536 + c1 * 256 + c2;
    assert(((w / 262144) % 64) * 262144 + ((w / 4096) % 64) * 4096 + ((w / 64) % 64) * 64 + (w % 64)
        == w) by (nonlinear_arith)
        requires
            w == c0 * 65536 + c1 * 256 + c2,
            0 <= c0 < 256,
            0 <= c1 < 256,
            0 <= c2 < 256,
    ;
    assert((w / 65536) % 256 == c0 && (w / 256) % 256 == c1 && w % 256 == c2) by (nonlinear_arith)
        requires
            w == c0 * 65536 + c1 * 256 + c2,
            0 <= c0 < 256,
            0 <= c1 < 256,
            0 <= c2 < 256,
    ;
    let v = c0 * 65536 + c1 * 256;
    assert(((v / 262144) % 64) * 262144 + ((v / 4096) % 64) * 4096 + ((v / 64) % 64) * 64 == v)
        by (nonlinear_arith)
        requires
            v == c0 * 65536 + c1 * 256,
            0 <= c0 < 256,
            0 <= c1 < 256,
    ;
    let u = c0 * 65536;
    assert(((u / 262144) % 64) * 262144 + ((u / 4096) % 64) * 4096 == u) by (nonlinear_arith)
        requires
            u == c0 * 65536,
            0 <= c0 < 256,
    ;
}

/// A base64 digit is an ASCII letter, digit, `+` or `/`, never white
/// space or `=`, and reads back as its position.
proof fn lemma_base64_char_reads_back(i: int)
    requires
        0 <= i < 64,
    ensures
        '\0' <= base64_char(i) <= '\u{7f}',
        base64_char(i) as u8 != 61,
        !skipped(base64_char(i) as u8),
        base64_value(base64_char(i) as u8) == Some(i),
        group_digit(base64_char(i) as u8) == Some(i),
{
}

/// One encoded group of one to three bytes decodes to those bytes.
proof fn lemma_group_round_trip(c: Seq<u8>)
    requires
        1 <= c.len() <= 3,
    ensures
        decode_group(ascii_bytes(group_chars(c))) == Some(c),
        forall|j: int|
            0 <= j < 4 ==> '\0' <= #[trigger] group_chars(c)[j] <= '\u{7f}' && !skipped(
                group_chars(c)[j] as u8,
            ),
{
    let w = group_word(c);
    let g = group_chars(c);
    let e = ascii_bytes(g);
    let c0 = c[0] as int;
    let c1: int = if c.len() > 1 { c[1] as int } else { 0 };
    let c2: int = if c.len() > 2 { c[2] as int } else { 0 };
    lemma_group_word_digits(c0, c1, c2);
    assert(w == c0 * 65536 + c1 * 256 + c2);
    assert(w / 1 == w);
    let d0 = (w / 262144) % 64;
    let d1 = (w / 4096) % 64;
    let d2 = (w / 64) % 64;
    let d3 = w % 64;
    lemma_base64_char_reads_back(d0);
    lemma_base64_char_reads_back(d1);
    lemma_base64_char_reads_back(d2);
    lemma_base64_char_reads_back(d3);
    assert(g[0] == base64_char(d0));
    assert(g[1] == base64_char(d1));
    assert(e[0] == g[0] as u8 && e[1] == g[1] as u8 && e[2] == g[2] as u8 && e[3] == g[3] as u8);
    if c.len() == 3 {
        assert(g[2] == base64_char(d2));
        assert(g[3] == base64_char(d3));
        assert(padding_of(e) == 0);
        assert(!(exists|i: int| 0 <= i < 4 - padding_of(e) && e[i] == 61));
        assert(decode_group(e).unwrap() =~= c);
    } else if c.len() == 2 {
        assert(g[2] == base64_char(d2));
        assert(g[3] == '=');
        assert(padding_of(e) == 1);
        assert(!(exists|i: int| 0 <= i < 4 - padding_of(e) && e[i] == 61));
        assert(decode_group(e).unwrap() =~= c);
    } else {
        assert(g[2] == '=');
        assert(g[3] == '=');
        assert(padding_of(e) == 2);
        assert(!(exists|i: int| 0 <= i < 4 - padding_of(e) && e[i] == 61));
        assert(decode_group(e).unwrap() =~= c);
    }
}

/// The encoding of the first `k` groups is `4k` characters long and
/// begins the encoding of any more groups.
proof fn lemma_groups_prefix(s: Seq<u8>, k: nat, n: nat)
    requires
        k <= n,
    ensures
        base64_groups(s, n).len() == 4 * n,
        base64_groups(s, n).subrange(0, 4 * k as int) == base64_groups(s, k),
    decreases n,
{
    if n > 0 {
        if k == n {
            lemma_groups_prefix(s, (n - 1) as nat, (n - 1) as nat);
            assert(base64_groups(s, n).subrange(0, 4 * k as int) =~= base64_groups(s, k));
        } else {
            lemma_groups_prefix(s, k, (n - 1) as nat);
            let prev = base64_groups(s, (n - 1) as nat);
            assert(base64_groups(s, n).subrange(0, 4 * k as int) =~= prev.subrange(0, 4 * k as int));
        }
    }
}

/// Every character of base64 text is ASCII and none is white space.
proof fn lemma_groups_plain(s: Seq<u8>, k: nat)
    requires
        k <= (s.len() + 2) / 3,
    ensures
        forall|i: int|
            0 <= i < base64_groups(s, k).len() ==> '\0' <= #[trigger] base64_groups(s, k)[i]
                <= '\u{7f}' && !skipped(base64_groups(s, k)[i] as u8),
    decreases k,
{
    if k > 0 {
        lemma_groups_plain(s, (k - 1) as nat);
        lemma_groups_prefix(s, (k - 1) as nat, (k - 1) as nat);
        let start = 3 * (k - 1);
        let end = if 3 * k > s.len() { s.len() as int } else { (3 * k) as int };
        assert(3 * ((s.len() + 2) / 3) <= s.len() + 2);
        lemma_group_round_trip(s.subrange(start, end));
        let prev = base64_groups(s, (k - 1) as nat);
        let g = group_chars(s.subrange(start, end));
        assert forall|i: int| 0 <= i < base64_groups(s, k).len() implies '\0'
            <= #[trigger] base64_groups(s, k)[i] <= '\u{7f}' && !skipped(
            base64_groups(s, k)[i] as u8,
        ) by {
            if i < prev.len() {
                assert(base64_groups(s, k)[i] == prev[i]);
            } else {
                assert(base64_groups(s, k)[i] == g[i - prev.len()]);
            }
        }
    }
}

/// The first `k` groups of the base64 text of `s` decode to the bytes
/// they encode.
proof fn lemma_decode_encoded(s: Seq<u8>, k: nat)
    requires
        k <= (s.len() + 2) / 3,
    ensures
        decode_groups(ascii_bytes(base64_text(s)), k) == Some(
            s.subrange(0, if 3 * k > s.len() { s.len() as int } else { (3 * k) as int }),
        ),
    decreases k,
{
    let total = ((s.len() + 2) / 3) as nat;
    let t = ascii_bytes(base64_text(s));
    if k == 0 {
        assert(s.subrange(0, 0) =~= Seq::<u8>::empty());
    } else {
        lemma_decode_encoded(s, (k - 1) as nat);
        assert(3 * ((s.len() + 2) / 3) <= s.len() + 2);
        let start = 3 * (k - 1);
        let end = if 3 * k > s.len() { s.len() as int } else { (3 * k) as int };
        let group = s.subrange(start, end);
        lemma_group_round_trip(group);
        lemma_groups_prefix(s, k, total);
        lemma_groups_prefix(s, (k - 1) as nat, (k - 1) as nat);
        let prefix = base64_groups(s, k);
        assert(prefix == base64_groups(s, (k - 1) as nat) + group_chars(group));
        assert(t.subrange(4 * (k - 1), 4 * k as int) =~= ascii_bytes(group_chars(group))) by {
            assert forall|j: int| 0 <= j < 4 implies t.subrange(4 * (k - 1), 4 * k as int)[j]
                == ascii_bytes(group_chars(group))[j] by {
                assert(base64_text(s)[4 * (k - 1) + j] == prefix[4 * (k - 1) + j]);
            }
        }
        assert(s.subrange(0, start) + group =~= s.subrange(0, end));
    }
}

/// Taking white space out of two runs is taking it out of each.
proof fn lemma_without_space_concat(a: Seq<u8>, b: Seq<u8>)
    ensures
        without_space(a + b) == without_space(a) + without_space(b),
    decreases b.len(),
{
    if b.len() == 0 {
        assert(a + b =~= a);
        assert(without_space(a) + without_space(b) =~= without_space(a));
    } else {
        lemma_without_space_concat(a, b.drop_last());
        assert((a + b).drop_last() =~= a + b.drop_last());
        if !skipped(b.last()) {
            assert(without_space(a) + without_space(b) =~= (without_space(a) + without_space(
                b.drop_last(),
            )).push(b.last()));
        }
    }
}

/// Bytes without white space pass through unchanged.
proof fn lemma_without_space_none(a: Seq<u8>)
    requires
        forall|i: int| 0 <= i < a.len() ==> !skipped(#[trigger] a[i]),
    ensures
        without_space(a) == a,
    decreases a.len(),
{
    if a.len() > 0 {
        lemma_without_space_none(a.drop_last());
        assert(a.drop_last().push(a.last()) =~= a);
    }
}

/// Line breaks every 76 characters keep plain ASCII text ASCII, and
/// taking the white space back out restores it.
proof fn lemma_unwrap76(t: Seq<char>)
    requires
        forall|i: int| 0 <= i < t.len() ==> '\0' <= #[trigger] t[i] <= '\u{7f}' && !skipped(t[i] as u8),
    ensures
        vstd::utf8::is_ascii_chars(wrapped76(t)),
        without_space(ascii_bytes(wrapped76(t))) == ascii_bytes(t),
    decreases t.len(),
{
    if t.len() <= 76 {
        lemma_without_space_none(ascii_bytes(t));
    } else {
        let head = t.take(76);
        let tail = t.skip(76);
        lemma_unwrap76(tail);
        let w = wrapped76(t);
        assert(w == head + seq!['\n'] + wrapped76(tail));
        assert(ascii_bytes(w) =~= ascii_bytes(head) + seq![10u8] + ascii_bytes(wrapped76(tail)));
        lemma_without_space_none(ascii_bytes(head));
        lemma_without_space_concat(ascii_bytes(head) + seq![10u8], ascii_bytes(wrapped76(tail)));
        lemma_without_space_concat(ascii_bytes(head), seq![10u8]);
        assert(without_space(seq![10u8]) =~= Seq::<u8>::empty()) by {
            assert(seq![10u8].drop_last() =~= Seq::<u8>::empty());
            assert(seq![10u8].last() == 10u8);
            assert(skipped(10u8));
            assert(without_space(Seq::<u8>::empty()) =~= Seq::<u8>::empty());
        }
        assert(ascii_bytes(head) + ascii_bytes(tail) =~= ascii_bytes(t));
        assert(without_space(ascii_bytes(head)) + Seq::<u8>::empty() =~= ascii_bytes(head));
        assert forall|i: int| 0 <= i < w.len() implies '\0' <= #[trigger] w[i] <= '\u{7f}' by {
            if i < 76 {
                assert(w[i] == t[i]);
            } else if i > 76 {
                assert(w[i] == wrapped76(tail)[i - 77]);
            }
        }
    }
}

/// `FROM_BASE64` undoes `TO_BASE64`: the base64 text of any bytes,
/// whether or not broken into lines of 76 characters, decodes to those
/// bytes.
pub proof fn law_from_base64_undoes_to_base64(bytes: Seq<u8>)
    ensures
        base64_bytes(vstd::utf8::encode_utf8(base64_text(bytes))) == Some(bytes),
        base64_bytes(vstd::utf8::encode_utf8(wrapped76(base64_text(bytes)))) == Some(bytes),
{
    let total = ((bytes.len() + 2) / 3) as nat;
    let text = base64_text(bytes);
    lemma_groups_plain(bytes, total);
    lemma_groups_prefix(bytes, total, total);
    assert(vstd::utf8::is_ascii_chars(text));
    vstd::utf8::is_ascii_chars_encode_utf8(text);
    assert(vstd::utf8::encode_utf8(text) =~= ascii_bytes(text));
    lemma_without_space_none(ascii_bytes(text));
    lemma_decode_encoded(bytes, total);
    assert(3 * total >= bytes.len());
    assert(bytes.subrange(0, bytes.len() as int) =~= bytes);
    assert(ascii_bytes(text).len() / 4 == total);
    lemma_unwrap76(text);
    let wrapped = wrapped76(text);
    vstd::utf8::is_ascii_chars_encode_utf8(wrapped);
    assert(vstd::utf8::encode_utf8(wrapped) =~= ascii_bytes(wrapped));
}

} // verus!
