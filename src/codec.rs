//! Fixed-width hexadecimal text for integers, and splitting text into chunks.
use vstd::prelude::*;
use vstd::string::is_ascii;
use vstd::arithmetic::div_mod::{lemma_fundamental_div_mod, lemma_fundamental_div_mod_converse, lemma_mod_breakdown};

verus! {

/// Why a piece of text could not be read back.
#[derive(Debug, Clone, Copy, PartialEq, Eq, Structural)]
pub enum DecodeError {
    /// A character that is not a hexadecimal digit.
    BadHexDigit,
    /// A field or a body whose length does not fit the layout.
    UnexpectedLength,
    /// Text too short to hold the eight-character header.
    TruncatedHeader,
    /// A gene with no trait marker.
    NoMarkers,
}

/// 16 to the power `n`.
pub open spec fn pow16(n: nat) -> nat
    decreases n,
{
    if n == 0 {
        1
    } else {
        16 * pow16((n - 1) as nat)
    }
}

/// The lowercase digit for `d < 16`.
pub open spec fn hex_char(d: nat) -> char {
    if d < 10 {
        (('0' as nat) + d) as char
    } else {
        (('a' as nat) + d - 10) as char
    }
}

/// The value of a hexadecimal digit, in either case.
pub open spec fn hex_value(c: char) -> Option<nat> {
    if '0' <= c && c <= '9' {
        Some((c as nat - '0' as nat) as nat)
    } else if 'a' <= c && c <= 'f' {
        Some((c as nat - 'a' as nat + 10) as nat)
    } else if 'A' <= c && c <= 'F' {
        Some((c as nat - 'A' as nat + 10) as nat)
    } else {
        None
    }
}

pub open spec fn is_hex_text(s: Seq<char>) -> bool {
    forall|i: int| 0 <= i < s.len() ==> (#[trigger] hex_value(s[i])) is Some
}

/// The number that a run of hexadecimal digits spells, most significant first.
pub open spec fn hex_number(s: Seq<char>) -> nat
    decreases s.len(),
{
    if s.len() == 0 {
        0
    } else {
        hex_number(s.drop_last()) * 16 + match hex_value(s.last()) {
            Some(d) => d,
            None => 0,
        }
    }
}

/// The `n` lowercase digits of `v` modulo `16^n`, most significant first.
pub open spec fn hex_text(v: nat, n: nat) -> Seq<char>
    decreases n,
{
    if n == 0 {
        Seq::empty()
    } else {
        hex_text(v / 16, (n - 1) as nat).push(hex_char(v % 16))
    }
}

/// What reading a field of exactly `n` hexadecimal digits gives.
pub open spec fn read_hex(s: Seq<char>, n: nat) -> Result<nat, DecodeError> {
    if s.len() != n {
        Err(DecodeError::UnexpectedLength)
    } else if !is_hex_text(s) {
        Err(DecodeError::BadHexDigit)
    } else {
        Ok(hex_number(s))
    }
}

/// The `i`-th chunk of `s` when it is cut every `size` characters; the last one may be short.
pub open spec fn chunk(s: Seq<char>, size: nat, i: int) -> Seq<char> {
    let end = if (i + 1) * size <= s.len() {
        (i + 1) * size
    } else {
        s.len() as int
    };
    s.subrange(i * size, end)
}

/// How many chunks cutting `len` characters every `size` gives.
pub open spec fn chunk_count(len: nat, size: nat) -> nat {
    if len % size == 0 {
        len / size
    } else {
        len / size + 1
    }
}

pub proof fn lemma_pow16_positive(n: nat)
    ensures
        pow16(n) > 0,
    decreases n,
{
    if n > 0 {
        lemma_pow16_positive((n - 1) as nat);
    }
}

/// Writing `n` digits and reading them back gives the value modulo `16^n`.
pub proof fn lemma_hex_text_read(v: nat, n: nat)
    ensures
        hex_text(v, n).len() == n,
        is_hex_text(hex_text(v, n)),
        hex_number(hex_text(v, n)) == v % pow16(n),
    decreases n,
{
    if n > 0 {
        let m = (n - 1) as nat;
        lemma_hex_text_read(v / 16, m);
        let t = hex_text(v, n);
        assert(t.drop_last() == hex_text(v / 16, m));
        assert(hex_value(hex_char(v % 16)) == Some(v % 16));
        assert forall|i: int| 0 <= i < t.len() implies (#[trigger] hex_value(t[i])) is Some by {
            if i < m {
                assert(t[i] == hex_text(v / 16, m)[i]);
            }
        }
        lemma_pow16_positive(m);
        lemma_mod_breakdown(v as int, 16, pow16(m) as int);
    }
}

/// The digit for `d < 16`.
fn digit_char(d: u32) -> (c: char)
    requires
        d < 16,
    ensures
        c == hex_char(d as nat),
{
    if d < 10 {
        ((48 + d) as u8) as char
    } else {
        ((87 + d) as u8) as char
    }
}

/// The value of one hexadecimal digit.
fn digit_value(c: char) -> (r: Option<u32>)
    ensures
        r matches Some(d) ==> hex_value(c) == Some(d as nat),
        r is None ==> hex_value(c) is None,
{
    let n = c as u32;
    if '0' <= c && c <= '9' {
        Some(n - 48)
    } else if 'a' <= c && c <= 'f' {
        Some(n - 87)
    } else if 'A' <= c && c <= 'F' {
        Some(n - 55)
    } else {
        None
    }
}

/// Appends the `n` lowercase digits of `v`.
pub(crate) fn push_hex(out: &mut Vec<char>, v: u32, n: usize)
    requires
        n <= 8,
    ensures
        final(out)@ == old(out)@ + hex_text(v as nat, n as nat),
    decreases n,
{
    if n > 0 {
        push_hex(out, v / 16, n - 1);
        out.push(digit_char(v % 16));
    }
}

/// Relies on String's FromIterator<char>: the string holds the characters in order.
#[verifier::external_body]
pub(crate) fn string_of_chars(cs: &Vec<char>) -> (r: String)
    ensures
        r@ == cs@,
{
    cs.iter().collect()
}

/// Four lowercase hexadecimal digits of `data`, most significant first.
pub fn u16_to_string(data: u16) -> (r: String)
    ensures
        r@ == hex_text(data as nat, 4),
{
    let mut out: Vec<char> = Vec::new();
    push_hex(&mut out, data as u32, 4);
    assert(out@ =~= hex_text(data as nat, 4));
    string_of_chars(&out)
}

/// Eight lowercase hexadecimal digits of `data`, most significant first.
pub fn u32_to_string(data: u32) -> (r: String)
    ensures
        r@ == hex_text(data as nat, 8),
{
    let mut out: Vec<char> = Vec::new();
    push_hex(&mut out, data, 8);
    assert(out@ =~= hex_text(data as nat, 8));
    string_of_chars(&out)
}

/// Reads a field of exactly `n` digits.
fn read_field(data: &str, n: usize) -> (r: Result<u32, DecodeError>)
    requires
        n <= 8,
    ensures
        match r {
            Ok(v) => read_hex(data@, n as nat) == Ok::<nat, DecodeError>(v as nat) && (v as nat)
                < pow16(n as nat),
            Err(e) => read_hex(data@, n as nat) == Err::<nat, DecodeError>(e),
        },
{
    let len = data.unicode_len();
    if len != n {
        return Err(DecodeError::UnexpectedLength);
    }
    let mut acc: u32 = 0;
    let mut i: usize = 0;
    while i < n
        invariant
            n <= 8,
            i <= n,
            data@.len() == n,
            is_hex_text(data@.take(i as int)),
            acc as nat == hex_number(data@.take(i as int)),
            (acc as nat) < pow16(i as nat),
        decreases n - i,
    {
        let c = data.get_char(i);
        match digit_value(c) {
            Some(d) => {
                proof {
                    lemma_pow16_positive(i as nat);
                    assert(pow16((i + 1) as nat) == 16 * pow16(i as nat));
                    lemma_pow16_monotone((i + 1) as nat, 8);
                    reveal_with_fuel(pow16, 9);
                    assert(pow16(8) == 0x1_0000_0000);
                    assert(acc * 16 + d < 16 * pow16(i as nat)) by (nonlinear_arith)
                        requires
                            (acc as nat) < pow16(i as nat),
                            d < 16,
                    ;
                }
                let ghost prev = data@.take(i as int);
                acc = acc * 16 + d;
                i = i + 1;
                proof {
                    let cur = data@.take(i as int);
                    assert(cur.drop_last() == prev);
                    assert(cur.last() == c);
                    assert forall|j: int| 0 <= j < cur.len() implies (#[trigger] hex_value(
                        cur[j],
                    )) is Some by {
                        if j < prev.len() {
                            assert(cur[j] == prev[j]);
                        }
                    }
                }
            },
            None => {
                proof {
                    assert(data@[i as int] == c);
                }
                return Err(DecodeError::BadHexDigit);
            },
        }
    }
    assert(data@.take(n as int) == data@);
    Ok(acc)
}

proof fn lemma_pow16_monotone(a: nat, b: nat)
    requires
        a <= b,
    ensures
        pow16(a) <= pow16(b),
    decreases b,
{
    if a < b {
        lemma_pow16_monotone(a, (b - 1) as nat);
    }
}

/// Reads four hexadecimal digits back into the number they spell.
pub fn u16_from_str(data: &str) -> (r: Result<u16, DecodeError>)
    ensures
        match r {
            Ok(v) => read_hex(data@, 4) == Ok::<nat, DecodeError>(v as nat),
            Err(e) => read_hex(data@, 4) == Err::<nat, DecodeError>(e),
        },
{
    match read_field(data, 4) {
        Ok(v) => {
            proof {
                reveal_with_fuel(pow16, 5);
                assert(pow16(4) == 65536);
            }
            Ok(v as u16)
        },
        Err(e) => Err(e),
    }
}

/// Reads eight hexadecimal digits back into the 32-bit pattern they spell.
pub fn u32_from_str(data: &str) -> (r: Result<u32, DecodeError>)
    ensures
        match r {
            Ok(v) => read_hex(data@, 8) == Ok::<nat, DecodeError>(v as nat),
            Err(e) => read_hex(data@, 8) == Err::<nat, DecodeError>(e),
        },
{
    read_field(data, 8)
}

/// One piece of `data`, from the `start`-th character up to the `end`-th.
fn piece<'a>(data: &'a str, ascii: bool, start: usize, end: usize) -> (r: &'a str)
    requires
        ascii == is_ascii(data),
        start <= end <= data@.len(),
    ensures
        r@ == data@.subrange(start as int, end as int),
{
    if ascii {
        data.substring_ascii(start, end)
    } else {
        data.substring_char(start, end)
    }
}

/// Cuts `data` every `size` characters; the last piece holds what is left and may be short.
pub fn partition_str<'a>(data: &'a str, size: usize) -> (r: Vec<&'a str>)
    requires
        size > 0,
    ensures
        r@.len() == chunk_count(data@.len(), size as nat),
        forall|i: int| 0 <= i < r@.len() ==> (#[trigger] r@[i])@ == chunk(data@, size as nat, i),
{
    let ascii = data.is_ascii();
    let n = data.unicode_len();
    let mut r: Vec<&'a str> = Vec::new();
    let mut start: usize = 0;
    assert(r@.len() * size == 0) by (nonlinear_arith)
        requires
            r@.len() == 0,
    ;
    while n - start >= size
        invariant
            size > 0,
            n == data@.len(),
            start <= n,
            start == r@.len() * size,
            ascii == is_ascii(data),
            forall|i: int| 0 <= i < r@.len() ==> (#[trigger] r@[i])@ == chunk(data@, size as nat, i),
        decreases n - start,
    {
        let k = r.len();
        let p = piece(data, ascii, start, start + size);
        r.push(p);
        proof {
            assert((k + 1) * size == k * size + size) by (nonlinear_arith);
            assert(r@[k as int]@ == chunk(data@, size as nat, k as int));
        }
        start = start + size;
    }
    let full = r.len();
    proof {
        lemma_fundamental_div_mod_converse(n as int, size as int, full as int, (n - start) as int);
    }
    if start < n {
        let p = piece(data, ascii, start, n);
        r.push(p);
        proof {
            assert((full + 1) * size == full * size + size) by (nonlinear_arith);
            assert(r@[full as int]@ == chunk(data@, size as nat, full as int));
        }
    }
    r
}

/// Cuts `data` every `size` characters; the last piece holds what is left and may be short.
pub fn partition_string<'a>(data: &'a String, size: usize) -> (r: Vec<&'a str>)
    requires
        size > 0,
    ensures
        r@.len() == chunk_count(data@.len(), size as nat),
        forall|i: int| 0 <= i < r@.len() ==> (#[trigger] r@[i])@ == chunk(data@, size as nat, i),
{
    partition_str(data.as_str(), size)
}

/// Joining blocks of one length `k`: the result has `n * k` items and the `i`-th
/// block sits at `i * k`.
pub proof fn lemma_uniform_blocks<A>(b: Seq<Seq<A>>, k: int)
    requires
        k >= 0,
        forall|i: int| 0 <= i < b.len() ==> (#[trigger] b[i]).len() == k,
    ensures
        b.flatten_alt().len() == b.len() * k,
        forall|i: int|
            0 <= i < b.len() ==> b.flatten_alt().subrange(i * k, i * k + k) == #[trigger] b[i],
    decreases b.len(),
{
    if b.len() > 0 {
        let n = b.len() as int;
        let front = b.drop_last();
        lemma_uniform_blocks(front, k);
        let f = b.flatten_alt();
        let g = front.flatten_alt();
        assert(f == g + b.last());
        assert(n * k == (n - 1) * k + k) by (nonlinear_arith);
        assert forall|i: int| 0 <= i < b.len() implies f.subrange(i * k, i * k + k)
            == #[trigger] b[i] by {
            if i < n - 1 {
                assert(i * k + k <= (n - 1) * k) by (nonlinear_arith)
                    requires
                        i < n - 1,
                        k >= 0,
                ;
                assert(0 <= i * k) by (nonlinear_arith)
                    requires
                        0 <= i,
                        k >= 0,
                ;
                assert(b[i] == front[i]);
                assert(f.subrange(i * k, i * k + k) =~= g.subrange(i * k, i * k + k));
            } else {
                assert(f.subrange(i * k, i * k + k) =~= b.last());
            }
        }
    }
}

/// A chunk of a text whose length is a multiple of `k` is a whole chunk.
pub proof fn lemma_chunk_inside(len: nat, k: nat, j: int)
    requires
        k > 0,
        len % k == 0,
        0 <= j < len / k,
    ensures
        0 <= j * k,
        (j + 1) * k == j * k + k,
        (j + 1) * k <= len,
{
    let n = len / k;
    lemma_fundamental_div_mod(len as int, k as int);
    assert((j + 1) * k <= n * k && 0 <= j * k && (j + 1) * k == j * k + k) by (nonlinear_arith)
        requires
            0 <= j < n,
            k > 0,
    ;
}

/// Text whose length is a multiple of `k` is all digits exactly when each of its
/// chunks of `k` characters is.
pub proof fn lemma_hex_text_by_chunks(t: Seq<char>, k: nat)
    requires
        k > 0,
        t.len() % k == 0,
    ensures
        is_hex_text(t) <==> forall|j: int|
            0 <= j < t.len() / k ==> is_hex_text(#[trigger] chunk(t, k, j)),
{
    let n = t.len() / k;
    lemma_fundamental_div_mod(t.len() as int, k as int);
    if is_hex_text(t) {
        assert forall|j: int| 0 <= j < n implies is_hex_text(#[trigger] chunk(t, k, j)) by {
            lemma_chunk_inside(t.len(), k, j);
            let c = chunk(t, k, j);
            assert forall|q: int| 0 <= q < c.len() implies (#[trigger] hex_value(c[q])) is Some by {
                assert(c[q] == t[j * k + q]);
            }
        }
    }
    if forall|j: int| 0 <= j < n ==> is_hex_text(#[trigger] chunk(t, k, j)) {
        assert forall|p: int| 0 <= p < t.len() implies (#[trigger] hex_value(t[p])) is Some by {
            let j = p / k as int;
            let q = p % k as int;
            lemma_fundamental_div_mod(p, k as int);
            assert(0 <= j < n) by {
                if j >= n {
                    assert(j * k >= n * k) by (nonlinear_arith)
                        requires
                            j >= n,
                            k > 0,
                    ;
                }
            }
            assert(0 <= q < k);
            lemma_chunk_inside(t.len(), k, j);
            assert(p == j * k + q) by (nonlinear_arith)
                requires
                    p == k * j + q,
            ;
            let c = chunk(t, k, j);
            assert(c =~= t.subrange(j * k, j * k + k));
            assert(c[q] == t[j * k + q]);
            assert(is_hex_text(c));
        }
    }
}

} // verus!
