//! Byte-string helpers shared by the HTTP, CGI and configuration code.
//!
//! All protocol text is handled as raw bytes; case folding and whitespace
//! follow the ASCII rules that HTTP tokens use.
use vstd::prelude::*;
use vstd::slice::{slice_subrange, slice_to_vec};

verus! {

/// The bytes of an ASCII character sequence.
pub open spec fn ascii_bytes(s: Seq<char>) -> Seq<u8> {
    Seq::new(s.len(), |i: int| s[i] as u8)
}

/// Copies an ASCII string literal into a byte vector.
pub fn lit(s: &str) -> (r: Vec<u8>)
    requires
        s.is_ascii(),
    ensures
        r@ == ascii_bytes(s@),
{
    proof {
        vstd::string::is_ascii_spec_bytes(s);
    }
    let v = slice_to_vec(s.as_bytes());
    assert(v@ =~= ascii_bytes(s@));
    v
}

/// Copies `s[i..j]` into a new vector.
pub fn slice_of(s: &[u8], i: usize, j: usize) -> (r: Vec<u8>)
    requires
        i <= j <= s@.len(),
    ensures
        r@ == s@.subrange(i as int, j as int),
{
    slice_to_vec(slice_subrange(s, i, j))
}

/// A copy of `s`.
pub fn copy(s: &[u8]) -> (r: Vec<u8>)
    ensures
        r@ == s@,
{
    let r = slice_of(s, 0, s.len());
    assert(r@ =~= s@);
    r
}

/// Appends all of `src` to `dst`.
pub fn append_bytes(dst: &mut Vec<u8>, src: &[u8])
    ensures
        final(dst)@ == old(dst)@ + src@,
{
    let mut i: usize = 0;
    while i < src.len()
        invariant
            i <= src@.len(),
            dst@ == old(dst)@ + src@.subrange(0, i as int),
        decreases src@.len() - i,
    {
        dst.push(src[i]);
        i = i + 1;
        assert(dst@ =~= old(dst)@ + src@.subrange(0, i as int));
    }
    assert(src@.subrange(0, i as int) =~= src@);
}

/// ASCII whitespace as `char::is_whitespace` sees it: tab, line feed,
/// vertical tab, form feed, carriage return and space.
pub open spec fn is_ws(b: u8) -> bool {
    b == 9 || b == 10 || b == 11 || b == 12 || b == 13 || b == 32
}

pub fn is_ws_byte(b: u8) -> (r: bool)
    ensures
        r == is_ws(b),
{
    b == 9 || b == 10 || b == 11 || b == 12 || b == 13 || b == 32
}

pub open spec fn lower_byte(b: u8) -> u8 {
    if 65 <= b <= 90 {
        (b + 32) as u8
    } else {
        b
    }
}

pub open spec fn upper_byte(b: u8) -> u8 {
    if 97 <= b <= 122 {
        (b - 32) as u8
    } else {
        b
    }
}

pub open spec fn lower(s: Seq<u8>) -> Seq<u8> {
    s.map_values(|b: u8| lower_byte(b))
}

pub open spec fn upper(s: Seq<u8>) -> Seq<u8> {
    s.map_values(|b: u8| upper_byte(b))
}

/// ASCII lower-casing.
pub fn to_lower(s: &[u8]) -> (r: Vec<u8>)
    ensures
        r@ == lower(s@),
{
    let mut r: Vec<u8> = Vec::new();
    let mut i: usize = 0;
    while i < s.len()
        invariant
            i <= s@.len(),
            r@ == lower(s@.subrange(0, i as int)),
        decreases s@.len() - i,
    {
        let b = s[i];
        let c = if 65 <= b && b <= 90 {
            b + 32
        } else {
            b
        };
        r.push(c);
        i = i + 1;
        assert(r@ =~= lower(s@.subrange(0, i as int)));
    }
    assert(s@.subrange(0, i as int) =~= s@);
    r
}

/// ASCII upper-casing.
pub fn to_upper(s: &[u8]) -> (r: Vec<u8>)
    ensures
        r@ == upper(s@),
{
    let mut r: Vec<u8> = Vec::new();
    let mut i: usize = 0;
    while i < s.len()
        invariant
            i <= s@.len(),
            r@ == upper(s@.subrange(0, i as int)),
        decreases s@.len() - i,
    {
        let b = s[i];
        let c = if 97 <= b && b <= 122 {
            b - 32
        } else {
            b
        };
        r.push(c);
        i = i + 1;
        assert(r@ =~= upper(s@.subrange(0, i as int)));
    }
    assert(s@.subrange(0, i as int) =~= s@);
    r
}

/// `s` with its leading whitespace removed.
pub open spec fn trim_start(s: Seq<u8>) -> Seq<u8>
    decreases s.len(),
{
    if s.len() > 0 && is_ws(s[0]) {
        trim_start(s.drop_first())
    } else {
        s
    }
}

/// `s` with its trailing whitespace removed.
pub open spec fn trim_end(s: Seq<u8>) -> Seq<u8>
    decreases s.len(),
{
    if s.len() > 0 && is_ws(s.last()) {
        trim_end(s.drop_last())
    } else {
        s
    }
}

pub open spec fn trim(s: Seq<u8>) -> Seq<u8> {
    trim_end(trim_start(s))
}

/// Index of the first byte of `s` at or after `i` that is not whitespace.
fn skip_ws(s: &[u8], i: usize) -> (j: usize)
    requires
        i <= s@.len(),
    ensures
        i <= j <= s@.len(),
        trim_start(s@.subrange(i as int, s@.len() as int)) == s@.subrange(
            j as int,
            s@.len() as int,
        ),
        j < s@.len() ==> !is_ws(s@[j as int]),
        forall|k: int| i <= k < j ==> is_ws(#[trigger] s@[k]),
{
    let mut j = i;
    while j < s.len() && is_ws_byte(s[j])
        invariant
            i <= j <= s@.len(),
            trim_start(s@.subrange(i as int, s@.len() as int)) == trim_start(
                s@.subrange(j as int, s@.len() as int),
            ),
            forall|k: int| i <= k < j ==> is_ws(#[trigger] s@[k]),
        decreases s@.len() - j,
    {
        assert(s@.subrange(j as int, s@.len() as int).drop_first() =~= s@.subrange(
            j + 1,
            s@.len() as int,
        ));
        j = j + 1;
    }
    j
}

/// `s` with surrounding ASCII whitespace removed.
pub fn trim_bytes(s: &[u8]) -> (r: Vec<u8>)
    ensures
        r@ == trim(s@),
{
    let i = skip_ws(s, 0);
    assert(s@.subrange(0, s@.len() as int) =~= s@);
    let mut j = s.len();
    while j > i && is_ws_byte(s[j - 1])
        invariant
            i <= j <= s@.len(),
            trim(s@) == trim_end(s@.subrange(i as int, j as int)),
        decreases j,
    {
        assert(s@.subrange(i as int, j as int).drop_last() =~= s@.subrange(i as int, j - 1));
        j = j - 1;
    }
    slice_of(s, i, j)
}

/// Length of the leading run of non-whitespace bytes.
pub open spec fn word_len(s: Seq<u8>) -> nat
    decreases s.len(),
{
    if s.len() == 0 || is_ws(s[0]) {
        0
    } else {
        1 + word_len(s.drop_first())
    }
}

/// The whitespace-separated words of `s`, in order.
pub open spec fn words(s: Seq<u8>) -> Seq<Seq<u8>>
    decreases s.len(),
{
    let t = trim_start(s);
    if t.len() == 0 {
        Seq::empty()
    } else {
        let n = word_len(t);
        if 0 < n <= t.len() && t.len() <= s.len() {
            seq![t.subrange(0, n as int)] + words(t.subrange(n as int, t.len() as int))
        } else {
            Seq::empty()
        }
    }
}

proof fn lemma_trim_start_len(s: Seq<u8>)
    ensures
        trim_start(s).len() <= s.len(),
        trim_start(s).len() > 0 ==> !is_ws(trim_start(s)[0]),
    decreases s.len(),
{
    if s.len() > 0 && is_ws(s[0]) {
        lemma_trim_start_len(s.drop_first());
    }
}

/// `word_len(s)` is `n` when the first `n` bytes are not whitespace and
/// the next one is, or `s` ends there.
proof fn lemma_word_len_is(s: Seq<u8>, n: int)
    requires
        0 <= n <= s.len(),
        forall|k: int| 0 <= k < n ==> !is_ws(#[trigger] s[k]),
        n == s.len() || is_ws(s[n]),
    ensures
        word_len(s) == n,
    decreases n,
{
    if n > 0 {
        lemma_word_len_is(s.drop_first(), n - 1);
    }
}

/// Splits `s` at runs of whitespace, as `str::split_whitespace` does.
pub fn split_words(s: &[u8]) -> (r: Vec<Vec<u8>>)
    ensures
        r@.len() == words(s@).len(),
        forall|k: int| 0 <= k < r@.len() ==> (#[trigger] r@[k])@ == words(s@)[k],
{
    let mut r: Vec<Vec<u8>> = Vec::new();
    let mut i: usize = 0;
    let ghost len = s@.len() as int;
    assert(s@.subrange(0, len) =~= s@);
    assert(Seq::new(r@.len(), |k: int| r@[k]@) + words(s@) =~= words(s@));
    while i < s.len()
        invariant
            i <= len == s@.len(),
            words(s@) == Seq::new(r@.len(), |k: int| r@[k]@) + words(s@.subrange(i as int, len)),
        decreases len - i,
    {
        let j = skip_ws(s, i);
        let ghost rest = s@.subrange(i as int, len);
        proof {
            lemma_trim_start_len(rest);
        }
        if j == s.len() {
            assert(words(rest) =~= Seq::empty());
            i = j;
        } else {
            let mut e = j;
            while e < s.len() && !is_ws_byte(s[e])
                invariant
                    j <= e <= len == s@.len(),
                    forall|k: int| j <= k < e ==> !is_ws(#[trigger] s@[k]),
                decreases len - e,
            {
                e = e + 1;
            }
            let w = slice_of(s, j, e);
            let ghost t = s@.subrange(j as int, len);
            proof {
                assert forall|k: int| 0 <= k < e - j implies !is_ws(#[trigger] t[k]) by {
                    assert(t[k] == s@[j + k]);
                }
                lemma_word_len_is(t, e - j);
                assert(t.subrange(0, e - j) =~= w@);
                assert(t.subrange(e - j, t.len() as int) =~= s@.subrange(e as int, len));
                assert(words(rest) == seq![w@] + words(s@.subrange(e as int, len)));
            }
            let ghost old_r = r@;
            r.push(w);
            assert(Seq::new(r@.len(), |k: int| r@[k]@) =~= Seq::new(
                old_r.len(),
                |k: int| old_r[k]@,
            ) + seq![w@]);
            i = e;
        }
    }
    assert(words(s@.subrange(i as int, len)) =~= Seq::empty()) by {
        assert(s@.subrange(i as int, len) =~= Seq::<u8>::empty());
    }
    assert(words(s@) =~= Seq::new(r@.len(), |k: int| r@[k]@));
    r
}

/// Position of the first occurrence of `b` in `s`.
#[verifier::opaque]
pub open spec fn find_first(s: Seq<u8>, b: u8) -> Option<int> {
    if exists|i: int| 0 <= i < s.len() && s[i] == b {
        Some(choose|i: int| 0 <= i < s.len() && s[i] == b && forall|k: int| 0 <= k < i ==> s[k] != b)
    } else {
        None
    }
}

/// What `find_first` picks: an occurrence with none before it.
pub proof fn lemma_find_first(s: Seq<u8>, b: u8)
    ensures
        find_first(s, b) matches Some(i) ==> 0 <= i < s.len() && s[i] == b && forall|k: int|
            0 <= k < i ==> s[k] != b,
        find_first(s, b) is None ==> forall|k: int| 0 <= k < s.len() ==> s[k] != b,
{
    reveal(find_first);
    if exists|i: int| 0 <= i < s.len() && s[i] == b {
        let i = choose|i: int| 0 <= i < s.len() && s[i] == b;
        lemma_least_byte(s, b, i);
    }
}

proof fn lemma_least_byte(s: Seq<u8>, b: u8, i: int)
    requires
        0 <= i < s.len() && s[i] == b,
    ensures
        exists|c: int| 0 <= c < s.len() && s[c] == b && forall|k: int| 0 <= k < c ==> s[k] != b,
    decreases i,
{
    if exists|j: int| 0 <= j < i && s[j] == b {
        let j = choose|j: int| 0 <= j < i && s[j] == b;
        lemma_least_byte(s, b, j);
    }
}

proof fn lemma_find_first_unique(s: Seq<u8>, b: u8, i: int)
    requires
        0 <= i < s.len() && s[i] == b,
        forall|k: int| 0 <= k < i ==> s[k] != b,
    ensures
        find_first(s, b) == Some(i),
{
    lemma_find_first(s, b);
    let c = find_first(s, b)->Some_0;
    if c < i {
        assert(s[c] != b);
    } else if c > i {
        assert(s[i] != b);
    }
}

/// Position of the first occurrence of `b` in `s`.
pub fn find_byte(s: &[u8], b: u8) -> (r: Option<usize>)
    ensures
        r matches Some(i) ==> find_first(s@, b) == Some(i as int) && i < s@.len() && s@[i as int]
            == b && forall|k: int| 0 <= k < i ==> s@[k] != b,
        r is None ==> find_first(s@, b) is None && forall|k: int| 0 <= k < s@.len() ==> s@[k] != b,
{
    let mut i: usize = 0;
    while i < s.len()
        invariant
            i <= s@.len(),
            forall|k: int| 0 <= k < i ==> s@[k] != b,
        decreases s@.len() - i,
    {
        if s[i] == b {
            proof {
                lemma_find_first_unique(s@, b, i as int);
            }
            return Some(i);
        }
        i = i + 1;
    }
    proof {
        lemma_find_first(s@, b);
    }
    None
}

pub open spec fn is_digit(b: u8) -> bool {
    48 <= b <= 57
}

pub open spec fn hex_digit_value(b: u8) -> int {
    if 48 <= b <= 57 {
        b - 48
    } else if 97 <= b <= 102 {
        b - 87
    } else if 65 <= b <= 70 {
        b - 55
    } else {
        -1
    }
}

/// The value of a sequence of digits in `radix` (10 or 16), most significant first.
pub open spec fn digits_value(s: Seq<u8>, radix: int) -> int
    decreases s.len(),
{
    if s.len() == 0 {
        0
    } else {
        radix * digits_value(s.drop_last(), radix) + hex_digit_value(s.last())
    }
}

pub open spec fn is_radix_digit(b: u8, radix: int) -> bool {
    if radix == 10 {
        is_digit(b)
    } else {
        0 <= hex_digit_value(b)
    }
}

/// `s` without one leading `+`, as the standard integer parsers accept it.
pub open spec fn unsigned_digits(s: Seq<u8>) -> Seq<u8> {
    if s.len() > 0 && s[0] == 43 {
        s.drop_first()
    } else {
        s
    }
}

/// What `usize::from_str_radix(s, radix)` gives: an optional `+`, then at
/// least one digit, and a value that fits.
pub open spec fn parse_unsigned(s: Seq<u8>, radix: int) -> Option<nat> {
    let d = unsigned_digits(s);
    if d.len() > 0 && (forall|k: int| 0 <= k < d.len() ==> is_radix_digit(#[trigger] d[k], radix))
        && digits_value(d, radix) <= usize::MAX {
        Some(digits_value(d, radix) as nat)
    } else {
        None
    }
}

proof fn lemma_digits_value_nonneg(s: Seq<u8>, radix: int)
    requires
        radix == 10 || radix == 16,
        forall|k: int| 0 <= k < s.len() ==> is_radix_digit(#[trigger] s[k], radix),
    ensures
        0 <= digits_value(s, radix),
        s.len() > 0 ==> digits_value(s.drop_last(), radix) <= digits_value(s, radix),
    decreases s.len(),
{
    if s.len() > 0 {
        lemma_digits_value_nonneg(s.drop_last(), radix);
    }
}

proof fn lemma_digits_value_mono(s: Seq<u8>, i: int, radix: int)
    requires
        radix == 10 || radix == 16,
        0 <= i <= s.len(),
        forall|k: int| 0 <= k < s.len() ==> is_radix_digit(#[trigger] s[k], radix),
    ensures
        digits_value(s.subrange(0, i), radix) <= digits_value(s, radix),
    decreases s.len() - i,
{
    if i < s.len() {
        lemma_digits_value_mono(s, i + 1, radix);
        let t = s.subrange(0, i + 1);
        assert(t.drop_last() =~= s.subrange(0, i));
        lemma_digits_value_nonneg(t, radix);
    } else {
        assert(s.subrange(0, i) =~= s);
    }
}

/// Reads an unsigned number in base 10 or 16, as `usize::from_str_radix`.
pub fn parse_radix(s: &[u8], radix: u32) -> (r: Option<usize>)
    requires
        radix == 10 || radix == 16,
    ensures
        r == match parse_unsigned(s@, radix as int) {
            Some(n) => Some(n as usize),
            None => None::<usize>,
        },
        r matches Some(v) ==> parse_unsigned(s@, radix as int) == Some(v as nat),
{
    let start: usize = if s.len() > 0 && s[0] == 43 {
        1
    } else {
        0
    };
    let ghost d = unsigned_digits(s@);
    assert(d =~= s@.subrange(start as int, s@.len() as int));
    if start == s.len() {
        return None;
    }
    let mut v: usize = 0;
    let mut i = start;
    while i < s.len()
        invariant
            start <= i <= s@.len(),
            d == s@.subrange(start as int, s@.len() as int),
            d == unsigned_digits(s@),
            forall|k: int| 0 <= k < i - start ==> is_radix_digit(#[trigger] d[k], radix as int),
            v == digits_value(d.subrange(0, i - start), radix as int),
            radix == 10 || radix == 16,
        decreases s@.len() - i,
    {
        let b = s[i];
        let dv: u32 = if 48 <= b && b <= 57 {
            (b - 48) as u32
        } else if radix == 16 && 97 <= b && b <= 102 {
            (b - 87) as u32
        } else if radix == 16 && 65 <= b && b <= 70 {
            (b - 55) as u32
        } else {
            assert(!is_radix_digit(d[i - start], radix as int));
            return None;
        };
        assert(d.subrange(0, i + 1 - start).drop_last() =~= d.subrange(0, i - start));
        assert(d[i - start] == b);
        proof {
            assert(is_radix_digit(d[i - start], radix as int));
            assert forall|k: int| 0 <= k < i + 1 - start implies is_radix_digit(
                #[trigger] d[k],
                radix as int,
            ) by {}
        }
        let mv = v.checked_mul(radix as usize);
        match mv {
            None => {
                proof {
                    let j = i + 1 - start;
                    lemma_digits_value_nonneg(d.subrange(0, j), radix as int);
                    if forall|k: int| 0 <= k < d.len() ==> is_radix_digit(#[trigger] d[k], radix as int) {
                        lemma_digits_value_mono(d, j, radix as int);
                    }
                }
                return None;
            },
            Some(m) => {
                match m.checked_add(dv as usize) {
                    None => {
                        proof {
                            let j = i + 1 - start;
                            if forall|k: int| 0 <= k < d.len() ==> is_radix_digit(#[trigger] d[k], radix as int) {
                                lemma_digits_value_mono(d, j, radix as int);
                            }
                        }
                        return None;
                    },
                    Some(n) => {
                        v = n;
                    },
                }
            },
        }
        i = i + 1;
    }
    assert(d.subrange(0, i - start) =~= d);
    proof {
        lemma_digits_value_nonneg(d, radix as int);
    }
    Some(v)
}

/// The decimal digits of `n`, without leading zeros.
pub open spec fn dec(n: nat) -> Seq<u8>
    decreases n,
{
    if n < 10 {
        seq![(48 + n) as u8]
    } else {
        dec(n / 10) + seq![(48 + n % 10) as u8]
    }
}

/// The lower-case hexadecimal digits of `n`, without leading zeros.
pub open spec fn hex(n: nat) -> Seq<u8>
    decreases n,
{
    if n < 16 {
        seq![hex_char(n)]
    } else {
        hex(n / 16) + seq![hex_char(n % 16)]
    }
}

pub open spec fn hex_char(d: nat) -> u8 {
    if d < 10 {
        (48 + d) as u8
    } else {
        (87 + d) as u8
    }
}

/// Renders `n` in decimal.
pub fn dec_bytes(n: u64) -> (r: Vec<u8>)
    ensures
        r@ == dec(n as nat),
    decreases n,
{
    if n < 10 {
        let r = vec![(48 + n) as u8];
        assert(r@ =~= dec(n as nat));
        r
    } else {
        let mut r = dec_bytes(n / 10);
        r.push((48 + n % 10) as u8);
        assert(r@ =~= dec(n as nat));
        r
    }
}

/// Renders `n` in lower-case hexadecimal.
pub fn hex_bytes(n: u64) -> (r: Vec<u8>)
    ensures
        r@ == hex(n as nat),
    decreases n,
{
    if n < 16 {
        let d = if n < 10 {
            (48 + n) as u8
        } else {
            (87 + n) as u8
        };
        let r = vec![d];
        assert(r@ =~= hex(n as nat));
        r
    } else {
        let mut r = hex_bytes(n / 16);
        let m = n % 16;
        let d = if m < 10 {
            (48 + m) as u8
        } else {
            (87 + m) as u8
        };
        r.push(d);
        assert(r@ =~= hex(n as nat));
        r
    }
}

pub open spec fn is_prefix(p: Seq<u8>, s: Seq<u8>) -> bool {
    p.len() <= s.len() && s.subrange(0, p.len() as int) == p
}

pub open spec fn is_suffix(p: Seq<u8>, s: Seq<u8>) -> bool {
    p.len() <= s.len() && s.subrange(s.len() - p.len(), s.len() as int) == p
}

pub fn starts_with(s: &[u8], p: &[u8]) -> (r: bool)
    ensures
        r == is_prefix(p@, s@),
{
    if p.len() > s.len() {
        return false;
    }
    let mut i: usize = 0;
    while i < p.len()
        invariant
            p@.len() <= s@.len(),
            i <= p@.len(),
            forall|k: int| 0 <= k < i ==> s@[k] == p@[k],
        decreases p@.len() - i,
    {
        if s[i] != p[i] {
            assert(s@.subrange(0, p@.len() as int)[i as int] != p@[i as int]);
            return false;
        }
        i = i + 1;
    }
    assert(s@.subrange(0, p@.len() as int) =~= p@);
    true
}

pub fn ends_with(s: &[u8], p: &[u8]) -> (r: bool)
    ensures
        r == is_suffix(p@, s@),
{
    if p.len() > s.len() {
        return false;
    }
    let off = s.len() - p.len();
    let mut i: usize = 0;
    while i < p.len()
        invariant
            p@.len() <= s@.len(),
            off == s@.len() - p@.len(),
            i <= p@.len(),
            forall|k: int| 0 <= k < i ==> s@[off + k] == p@[k],
        decreases p@.len() - i,
    {
        let n = s.len();
        assert(off + i < n);
        if s[off + i] != p[i] {
            assert(s@.subrange(off as int, s@.len() as int)[i as int] != p@[i as int]);
            return false;
        }
        i = i + 1;
    }
    assert(s@.subrange(off as int, s@.len() as int) =~= p@);
    true
}

/// Whether `p` occurs in `s` at position `i`.
pub open spec fn occurs_at(s: Seq<u8>, p: Seq<u8>, i: int) -> bool {
    0 <= i && i + p.len() <= s.len() && s.subrange(i, i + p.len()) == p
}

pub open spec fn contains(s: Seq<u8>, p: Seq<u8>) -> bool {
    exists|i: int| occurs_at(s, p, i)
}

/// Position of the first occurrence of `p` in `s`.
pub fn find_seq(s: &[u8], p: &[u8]) -> (r: Option<usize>)
    ensures
        r matches Some(i) ==> occurs_at(s@, p@, i as int) && forall|k: int|
            0 <= k < i ==> !occurs_at(s@, p@, k),
        r is None ==> !contains(s@, p@),
{
    if p.len() > s.len() {
        return None;
    }
    let mut i: usize = 0;
    while i <= s.len() - p.len()
        invariant
            p@.len() <= s@.len(),
            i <= s@.len() - p@.len() + 1,
            forall|k: int| 0 <= k < i ==> !occurs_at(s@, p@, k),
        decreases s@.len() - p@.len() + 1 - i,
    {
        let mut j: usize = 0;
        let mut same = true;
        while j < p.len()
            invariant
                i + p@.len() <= s@.len(),
                j <= p@.len(),
                same ==> forall|k: int| 0 <= k < j ==> s@[i + k] == p@[k],
                !same ==> !occurs_at(s@, p@, i as int),
            decreases p@.len() - j,
        {
            let n = s.len();
            assert(i + j < n);
            if s[i + j] != p[j] {
                assert(s@.subrange(i as int, i + p@.len())[j as int] != p@[j as int]);
                same = false;
            }
            j = j + 1;
        }
        if same {
            assert(s@.subrange(i as int, i + p@.len()) =~= p@);
            return Some(i);
        }
        if i == s.len() - p.len() {
            return None;
        }
        i = i + 1;
    }
    None
}

/// Position of the first occurrence of `p` in `s`.
#[verifier::opaque]
pub open spec fn first_occurrence(s: Seq<u8>, p: Seq<u8>) -> Option<int> {
    if exists|i: int| occurs_at(s, p, i) {
        Some(choose|i: int| occurs_at(s, p, i) && forall|k: int| 0 <= k < i ==> !occurs_at(s, p, k))
    } else {
        None
    }
}

proof fn lemma_first_occurrence_unique(s: Seq<u8>, p: Seq<u8>, i: int)
    requires
        occurs_at(s, p, i),
        forall|k: int| 0 <= k < i ==> !occurs_at(s, p, k),
    ensures
        first_occurrence(s, p) == Some(i),
{
    reveal(first_occurrence);
    let c = choose|c: int| occurs_at(s, p, c) && forall|k: int| 0 <= k < c ==> !occurs_at(s, p, k);
    assert(occurs_at(s, p, c) && forall|k: int| 0 <= k < c ==> !occurs_at(s, p, k));
    if c < i {
        assert(!occurs_at(s, p, c));
    } else if c > i {
        assert(!occurs_at(s, p, i));
    }
}

/// Position of the first occurrence of `p` in `s`, as `first_occurrence` gives it.
pub fn find_first_seq(s: &[u8], p: &[u8]) -> (r: Option<usize>)
    ensures
        r matches Some(i) ==> first_occurrence(s@, p@) == Some(i as int) && i + p@.len()
            <= s@.len(),
        r is None ==> first_occurrence(s@, p@) is None,
{
    let r = find_seq(s, p);
    match r {
        Some(i) => {
            proof {
                lemma_first_occurrence_unique(s@, p@, i as int);
            }
        },
        None => {
            proof {
                reveal(first_occurrence);
            }
        },
    }
    r
}

/// Position of the last occurrence of `b` in `s`.
pub open spec fn find_last(s: Seq<u8>, b: u8) -> Option<int>
    decreases s.len(),
{
    if s.len() == 0 {
        None
    } else if s.last() == b {
        Some(s.len() - 1)
    } else {
        find_last(s.drop_last(), b)
    }
}

pub fn rfind_byte(s: &[u8], b: u8) -> (r: Option<usize>)
    ensures
        r matches Some(i) ==> find_last(s@, b) == Some(i as int) && i < s@.len(),
        r is None ==> find_last(s@, b) is None,
{
    let mut i = s.len();
    assert(s@.subrange(0, i as int) =~= s@);
    while i > 0
        invariant
            i <= s@.len(),
            find_last(s@, b) == find_last(s@.subrange(0, i as int), b),
        decreases i,
    {
        assert(s@.subrange(0, i as int).drop_last() =~= s@.subrange(0, i - 1));
        if s[i - 1] == b {
            return Some(i - 1);
        }
        i = i - 1;
    }
    None
}

pub fn contains_seq(s: &[u8], p: &[u8]) -> (r: bool)
    ensures
        r == contains(s@, p@),
{
    match find_seq(s, p) {
        Some(_) => true,
        None => false,
    }
}

} // verus!
