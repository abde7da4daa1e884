//! Byte-level text helpers shared by the tokenizer and the parser: character
//! classes (with the Latin-1 reading of bytes above 0x7f), decimal numerals,
//! separator splitting and whitespace trimming.
use vstd::prelude::*;
use vstd::string::StringSliceAdditionalSpecFns;

verus! {

/// Whitespace bytes: the ASCII whitespace characters plus the two Latin-1
/// whitespace code points (NEL 0x85 and NBSP 0xa0).
pub open spec fn is_space(c: u8) -> bool {
    c == 0x09 || c == 0x0a || c == 0x0b || c == 0x0c || c == 0x0d || c == 0x20 || c == 0x85
        || c == 0xa0
}

pub fn is_space_byte(c: u8) -> (r: bool)
    ensures
        r == is_space(c),
{
    c == 0x09 || c == 0x0a || c == 0x0b || c == 0x0c || c == 0x0d || c == 0x20 || c == 0x85
        || c == 0xa0
}

pub open spec fn is_digit(c: u8) -> bool {
    0x30 <= c <= 0x39
}

pub fn is_digit_byte(c: u8) -> (r: bool)
    ensures
        r == is_digit(c),
{
    0x30 <= c && c <= 0x39
}

/// Alphanumeric bytes: ASCII digits and letters plus the Latin-1 letters and
/// numeric signs (feminine/masculine ordinals, superscripts, micro, vulgar
/// fractions, and the accented letter blocks without the two operators 0xd7
/// and 0xf7).
pub open spec fn is_alnum(c: u8) -> bool {
    is_digit(c) || (0x41 <= c <= 0x5a) || (0x61 <= c <= 0x7a) || c == 0xaa || c == 0xb2
        || c == 0xb3 || c == 0xb5 || c == 0xb9 || c == 0xba || c == 0xbc || c == 0xbd || c == 0xbe
        || (0xc0 <= c <= 0xd6) || (0xd8 <= c <= 0xf6) || 0xf8 <= c
}

pub fn is_alnum_byte(c: u8) -> (r: bool)
    ensures
        r == is_alnum(c),
{
    is_digit_byte(c) || (0x41 <= c && c <= 0x5a) || (0x61 <= c && c <= 0x7a) || c == 0xaa
        || c == 0xb2 || c == 0xb3 || c == 0xb5 || c == 0xb9 || c == 0xba || c == 0xbc || c == 0xbd
        || c == 0xbe || (0xc0 <= c && c <= 0xd6) || (0xd8 <= c && c <= 0xf6) || 0xf8 <= c
}

pub open spec fn all_digits(s: Seq<u8>) -> bool {
    forall|i: int| 0 <= i < s.len() ==> is_digit(#[trigger] s[i])
}

/// The value of a digit string read in base 10.
pub open spec fn digits_value(s: Seq<u8>) -> int
    decreases s.len(),
{
    if s.len() == 0 {
        0
    } else {
        digits_value(s.drop_last()) * 10 + (s.last() - 0x30)
    }
}

/// Appending digits never shrinks the value of a digit string.
pub proof fn lemma_digits_value_prefix(s: Seq<u8>, j: int)
    requires
        all_digits(s),
        0 <= j <= s.len(),
    ensures
        digits_value(s) >= digits_value(s.take(j)),
        digits_value(s) >= 0,
        digits_value(s.take(j)) >= 0,
    decreases s.len() - j,
{
    lemma_digits_value_nonneg(s);
    if j == s.len() {
        assert(s.take(j) =~= s);
    } else {
        lemma_digits_value_prefix(s, j + 1);
        assert(s.take(j + 1).drop_last() =~= s.take(j));
        lemma_digits_value_nonneg(s.take(j));
    }
}

pub proof fn lemma_digits_value_nonneg(s: Seq<u8>)
    requires
        all_digits(s),
    ensures
        digits_value(s) >= 0,
    decreases s.len(),
{
    if s.len() > 0 {
        assert(all_digits(s.drop_last()));
        lemma_digits_value_nonneg(s.drop_last());
    }
}

/// Reads a byte string as a base-10 number. Gives the value exactly when the
/// string is a nonempty run of digits whose value fits in an `i32`.
pub fn parse_num(s: &[u8]) -> (r: Option<i32>)
    ensures
        match r {
            Some(n) => s@.len() > 0 && all_digits(s@) && digits_value(s@) == n as int && n >= 0,
            None => s@.len() == 0 || !all_digits(s@) || digits_value(s@) > i32::MAX as int,
        },
{
    if s.len() == 0 {
        return None;
    }
    let mut acc: i32 = 0;
    let mut i: usize = 0;
    while i < s.len()
        invariant
            0 <= i <= s@.len(),
            all_digits(s@.take(i as int)),
            acc as int == digits_value(s@.take(i as int)),
            0 <= acc,
        decreases s@.len() - i,
    {
        let c = s[i];
        if !is_digit_byte(c) {
            assert(!all_digits(s@));
            return None;
        }
        let d = c - 0x30;
        assert(s@.take(i + 1).drop_last() =~= s@.take(i as int));
        if acc > (i32::MAX - d as i32) / 10 {
            proof {
                assert(all_digits(s@.take(i + 1)));
                assert(digits_value(s@.take(i + 1)) == acc * 10 + d);
                assert(acc * 10 + d > i32::MAX as int) by (nonlinear_arith)
                    requires
                        acc > (i32::MAX - d as i32) / 10,
                        0 <= d <= 9,
                        acc >= 0,
                ;
                if all_digits(s@) {
                    lemma_digits_value_prefix(s@, i + 1);
                }
            }
            return None;
        }
        proof {
            assert(acc * 10 + d <= i32::MAX as int) by (nonlinear_arith)
                requires
                    acc <= (i32::MAX - d as i32) / 10,
                    0 <= d <= 9,
                    acc >= 0,
            ;
        }
        acc = acc * 10 + d as i32;
        i = i + 1;
    }
    assert(s@.take(i as int) =~= s@);
    Some(acc)
}

/// Reads a byte string as a base-10 number with the wider `u32` range, for
/// magnitudes that an `i32` cannot hold.
pub fn parse_num_u32(s: &[u8]) -> (r: Option<u32>)
    ensures
        match r {
            Some(n) => s@.len() > 0 && all_digits(s@) && digits_value(s@) == n as int,
            None => s@.len() == 0 || !all_digits(s@) || digits_value(s@) > u32::MAX as int,
        },
{
    if s.len() == 0 {
        return None;
    }
    let mut acc: u32 = 0;
    let mut i: usize = 0;
    while i < s.len()
        invariant
            0 <= i <= s@.len(),
            all_digits(s@.take(i as int)),
            acc as int == digits_value(s@.take(i as int)),
        decreases s@.len() - i,
    {
        let c = s[i];
        if !is_digit_byte(c) {
            assert(!all_digits(s@));
            return None;
        }
        let d = c - 0x30;
        assert(s@.take(i + 1).drop_last() =~= s@.take(i as int));
        if acc > (u32::MAX - d as u32) / 10 {
            proof {
                assert(all_digits(s@.take(i + 1)));
                assert(digits_value(s@.take(i + 1)) == acc * 10 + d);
                assert(acc * 10 + d > u32::MAX as int) by (nonlinear_arith)
                    requires
                        acc > (u32::MAX - d as u32) / 10,
                        0 <= d <= 9,
                        acc >= 0,
                ;
                if all_digits(s@) {
                    lemma_digits_value_prefix(s@, i + 1);
                }
            }
            return None;
        }
        proof {
            assert(acc * 10 + d <= u32::MAX as int) by (nonlinear_arith)
                requires
                    acc <= (u32::MAX - d as u32) / 10,
                    0 <= d <= 9,
                    acc >= 0,
            ;
        }
        acc = acc * 10 + d as u32;
        i = i + 1;
    }
    assert(s@.take(i as int) =~= s@);
    Some(acc)
}

/// The decimal digits of a nonnegative number.
pub open spec fn dec_bytes(n: int) -> Seq<u8>
    decreases n,
{
    if n < 10 {
        seq![(0x30 + if n >= 0 {
            n
        } else {
            0
        }) as u8]
    } else {
        dec_bytes(n / 10) + seq![(0x30 + n % 10) as u8]
    }
}

/// Renders a number in decimal.
pub fn dec_u32(n: u32) -> (v: Vec<u8>)
    ensures
        v@ == dec_bytes(n as int),
    decreases n,
{
    if n < 10 {
        let mut v: Vec<u8> = Vec::new();
        v.push(0x30 + n as u8);
        proof {
            assert(v@ =~= dec_bytes(n as int));
        }
        v
    } else {
        let mut v = dec_u32(n / 10);
        v.push(0x30 + (n % 10) as u8);
        proof {
            assert(v@ =~= dec_bytes(n as int / 10) + seq![(0x30 + n as int % 10) as u8]);
        }
        v
    }
}

/// Index of the first occurrence of `sep`, or the length when absent.
pub open spec fn sep_pos(s: Seq<u8>, sep: u8) -> nat
    decreases s.len(),
{
    if s.len() == 0 {
        0
    } else if s[0] == sep {
        0
    } else {
        1 + sep_pos(s.drop_first(), sep)
    }
}

pub proof fn lemma_sep_pos(s: Seq<u8>, sep: u8)
    ensures
        sep_pos(s, sep) <= s.len(),
        sep_pos(s, sep) < s.len() ==> s[sep_pos(s, sep) as int] == sep,
        forall|j: int| 0 <= j < sep_pos(s, sep) ==> s[j] != sep,
    decreases s.len(),
{
    if s.len() > 0 && s[0] != sep {
        lemma_sep_pos(s.drop_first(), sep);
        assert forall|j: int| 0 <= j < sep_pos(s, sep) implies s[j] != sep by {
            if j > 0 {
                assert(s[j] == s.drop_first()[j - 1]);
            }
        }
    }
}

/// Characterizes `sep_pos` by its first occurrence.
pub proof fn lemma_sep_pos_at(s: Seq<u8>, sep: u8, k: int)
    requires
        0 <= k <= s.len(),
        forall|j: int| 0 <= j < k ==> s[j] != sep,
        k < s.len() ==> s[k] == sep,
    ensures
        sep_pos(s, sep) == k,
    decreases s.len(),
{
    if s.len() > 0 && s[0] != sep {
        lemma_sep_pos_at(s.drop_first(), sep, k - 1);
    }
}

/// The pieces of `s` between occurrences of `sep`, in order; n separators
/// give n + 1 pieces.
pub open spec fn spec_split(s: Seq<u8>, sep: u8) -> Seq<Seq<u8>>
    decreases s.len(),
{
    let p = sep_pos(s, sep);
    if p >= s.len() {
        seq![s]
    } else {
        proof {
            lemma_sep_pos(s, sep);
        }
        seq![s.take(p as int)] + spec_split(s.skip(p as int + 1), sep)
    }
}

/// Drops leading whitespace.
pub open spec fn trim_front(s: Seq<u8>) -> Seq<u8>
    decreases s.len(),
{
    if s.len() > 0 && is_space(s[0]) {
        trim_front(s.drop_first())
    } else {
        s
    }
}

/// Drops trailing whitespace.
pub open spec fn trim_back(s: Seq<u8>) -> Seq<u8>
    decreases s.len(),
{
    if s.len() > 0 && is_space(s.last()) {
        trim_back(s.drop_last())
    } else {
        s
    }
}

/// Drops whitespace from both ends.
pub open spec fn spec_trim(s: Seq<u8>) -> Seq<u8> {
    trim_back(trim_front(s))
}

/// Copies `s[from..to]` into a fresh vector.
pub fn copy_range(s: &[u8], from: usize, to: usize) -> (v: Vec<u8>)
    requires
        from <= to <= s@.len(),
    ensures
        v@ == s@.subrange(from as int, to as int),
{
    let mut v: Vec<u8> = Vec::new();
    let mut i: usize = from;
    while i < to
        invariant
            from <= i <= to <= s@.len(),
            v@ == s@.subrange(from as int, i as int),
        decreases to - i,
    {
        v.push(s[i]);
        assert(v@ =~= s@.subrange(from as int, i + 1));
        i = i + 1;
    }
    v
}

/// An owned copy of a string literal's bytes.
pub fn str_vec(s: &str) -> (r: Vec<u8>)
    ensures
        r@ == s.spec_bytes(),
{
    let b = s.as_bytes();
    let r = copy_range(b, 0, b.len());
    proof {
        assert(r@ =~= b@);
    }
    r
}

pub fn bytes_eq(a: &[u8], b: &[u8]) -> (r: bool)
    ensures
        r == (a@ == b@),
{
    if a.len() != b.len() {
        return false;
    }
    let mut i: usize = 0;
    while i < a.len()
        invariant
            0 <= i <= a@.len(),
            a@.len() == b@.len(),
            forall|j: int| 0 <= j < i ==> a@[j] == b@[j],
        decreases a@.len() - i,
    {
        if a[i] != b[i] {
            return false;
        }
        i = i + 1;
    }
    proof {
        assert(a@ =~= b@);
    }
    true
}

/// The trimmed copy of `s[from..to]`.
pub fn trim_range(s: &[u8], from: usize, to: usize) -> (v: Vec<u8>)
    requires
        from <= to <= s@.len(),
    ensures
        v@ == spec_trim(s@.subrange(from as int, to as int)),
{
    let ghost whole = s@.subrange(from as int, to as int);
    let mut i: usize = from;
    while i < to && is_space_byte(s[i])
        invariant
            from <= i <= to <= s@.len(),
            trim_front(whole) == trim_front(s@.subrange(i as int, to as int)),
            whole == s@.subrange(from as int, to as int),
        decreases to - i,
    {
        proof {
            assert(s@.subrange(i as int, to as int).drop_first() =~= s@.subrange(
                i + 1,
                to as int,
            ));
        }
        i = i + 1;
    }
    proof {
        assert(trim_front(whole) == s@.subrange(i as int, to as int));
    }
    let mut j: usize = to;
    while j > i && is_space_byte(s[j - 1])
        invariant
            from <= i <= j <= to <= s@.len(),
            trim_back(trim_front(whole)) == trim_back(s@.subrange(i as int, j as int)),
            trim_front(whole) == s@.subrange(i as int, to as int),
            whole == s@.subrange(from as int, to as int),
        decreases j - i,
    {
        proof {
            assert(s@.subrange(i as int, j as int).drop_last() =~= s@.subrange(
                i as int,
                j - 1,
            ));
        }
        j = j - 1;
    }
    proof {
        assert(trim_back(s@.subrange(i as int, j as int)) == s@.subrange(i as int, j as int));
    }
    copy_range(s, i, j)
}

} // verus!
