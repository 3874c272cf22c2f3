//! ASCII text model: decimal rendering and parsing used by every name,
//! subject, key and timestamp the pipeline produces.

use vstd::prelude::*;

verus! {

/// The characters a byte sequence denotes, one character per byte.
/// Meaningful for ASCII bytes, where UTF-8 is the identity.
pub open spec fn chars_of(bs: Seq<u8>) -> Seq<char> {
    Seq::new(bs.len(), |i: int| bs[i] as char)
}

/// All bytes of `bs` are ASCII.
pub open spec fn ascii_bytes(bs: Seq<u8>) -> bool {
    forall|i: int| 0 <= i < bs.len() ==> bs[i] < 128
}

/// All characters of `cs` are ASCII.
pub open spec fn ascii_chars(cs: Seq<char>) -> bool {
    forall|i: int| 0 <= i < cs.len() ==> (cs[i] as u32) < 128
}

/// Relies on `String::from_utf8`: ASCII bytes are valid UTF-8 and decode
/// to exactly one character per byte, each with the byte's code point.
#[verifier::external_body]
pub fn ascii_to_string(v: Vec<u8>) -> (s: String)
    requires
        ascii_bytes(v@),
    ensures
        s@ == chars_of(v@),
{
    match String::from_utf8(v) {
        Ok(s) => s,
        Err(_) => String::new(),
    }
}

/// The decimal digit character for `d`.
pub open spec fn digit_char(d: nat) -> char
    recommends
        d < 10,
{
    ((48 + d) as u8) as char
}

/// `c` is one of '0' ..= '9'.
pub open spec fn is_digit_char(c: char) -> bool {
    48 <= (c as u32) <= 57
}

/// The numeric value of a digit character.
pub open spec fn digit_val(c: char) -> nat
    recommends
        is_digit_char(c),
{
    ((c as u32) - 48) as nat
}

/// The shortest decimal rendering of `n`, most significant digit first.
pub open spec fn dec_chars(n: nat) -> Seq<char>
    decreases n,
{
    if n < 10 {
        seq![digit_char(n)]
    } else {
        dec_chars(n / 10).push(digit_char(n % 10))
    }
}

/// The decimal rendering of `n`, left-padded with '0' to at least `w`
/// characters.
pub open spec fn dec_chars_pad(n: nat, w: nat) -> Seq<char> {
    let s = dec_chars(n);
    if s.len() >= w {
        s
    } else {
        seq_repeat('0', (w - s.len()) as nat) + s
    }
}

/// `c` repeated `n` times.
pub open spec fn seq_repeat(c: char, n: nat) -> Seq<char> {
    Seq::new(n, |i: int| c)
}

/// Every character of `cs` is a decimal digit.
pub open spec fn all_digits(cs: Seq<char>) -> bool {
    forall|i: int| 0 <= i < cs.len() ==> is_digit_char(#[trigger] cs[i])
}

/// The number denoted by a digit string, most significant digit first.
pub open spec fn dec_val(cs: Seq<char>) -> nat
    decreases cs.len(),
{
    if cs.len() == 0 {
        0
    } else {
        dec_val(cs.drop_last()) * 10 + digit_val(cs.last())
    }
}

/// What parsing a decimal field yields: the value, provided the text is a
/// non-empty digit string whose value fits in `u64`.
pub open spec fn spec_parse_dec(cs: Seq<char>) -> Option<u64> {
    if cs.len() > 0 && all_digits(cs) && dec_val(cs) <= u64::MAX {
        Some(dec_val(cs) as u64)
    } else {
        None
    }
}

/// The rendering of `n` consists of digits only.
pub proof fn lemma_dec_chars_digits(n: nat)
    ensures
        all_digits(dec_chars(n)),
        dec_chars(n).len() >= 1,
    decreases n,
{
    if n < 10 {
    } else {
        lemma_dec_chars_digits(n / 10);
        assert forall|i: int| 0 <= i < dec_chars(n).len() implies is_digit_char(
            #[trigger] dec_chars(n)[i],
        ) by {
            if i < dec_chars(n).len() - 1 {
                assert(dec_chars(n)[i] == dec_chars(n / 10)[i]);
            }
        }
    }
}

/// A digit character round-trips to its value.
pub proof fn lemma_digit_char_val(d: nat)
    requires
        d < 10,
    ensures
        is_digit_char(digit_char(d)),
        digit_val(digit_char(d)) == d,
{
    assert((((48 + d) as u8) as char) as u32 == 48 + d);
}

/// Parsing inverts rendering: the digit string of `n` denotes `n`.
pub proof fn lemma_dec_val_of_dec_chars(n: nat)
    ensures
        dec_val(dec_chars(n)) == n,
    decreases n,
{
    if n < 10 {
        lemma_digit_char_val(n);
        let s = dec_chars(n);
        assert(s == seq![digit_char(n)]);
        assert(s.len() == 1);
        assert(s.drop_last() =~= Seq::<char>::empty());
        assert(s.last() == digit_char(n));
        assert(dec_val(s) == dec_val(s.drop_last()) * 10 + digit_val(s.last()));
        assert(dec_val(Seq::<char>::empty()) == 0);
    } else {
        lemma_dec_val_of_dec_chars(n / 10);
        lemma_digit_char_val(n % 10);
        let s = dec_chars(n);
        assert(s == dec_chars(n / 10).push(digit_char(n % 10)));
        assert(s.len() >= 1);
        assert(s.drop_last() =~= dec_chars(n / 10));
        assert(s.last() == digit_char(n % 10));
        assert(dec_val(s) == dec_val(s.drop_last()) * 10 + digit_val(s.last()));
        assert(dec_val(s) == (n / 10) * 10 + n % 10);
        assert((n / 10) * 10 + n % 10 == n) by (nonlinear_arith);
    }
}

/// Left-padding with zeros does not change the denoted value.
pub proof fn lemma_dec_val_zero_pad(cs: Seq<char>, k: nat)
    ensures
        dec_val(seq_repeat('0', k) + cs) == dec_val(cs),
    decreases cs.len(),
{
    if cs.len() == 0 {
        lemma_dec_val_zeros(k);
        assert(seq_repeat('0', k) + cs =~= seq_repeat('0', k));
    } else {
        lemma_dec_val_zero_pad(cs.drop_last(), k);
        assert((seq_repeat('0', k) + cs).drop_last() =~= seq_repeat('0', k) + cs.drop_last());
        assert((seq_repeat('0', k) + cs).last() == cs.last());
    }
}

/// A string of zeros denotes zero.
pub proof fn lemma_dec_val_zeros(k: nat)
    ensures
        dec_val(seq_repeat('0', k)) == 0,
    decreases k,
{
    if k > 0 {
        lemma_dec_val_zeros((k - 1) as nat);
        assert(seq_repeat('0', k).drop_last() =~= seq_repeat('0', (k - 1) as nat));
        assert(seq_repeat('0', k).last() == '0');
        assert(digit_val('0') == 0);
    }
}

/// The padded rendering is all digits and denotes `n`.
pub proof fn lemma_dec_chars_pad(n: nat, w: nat)
    ensures
        all_digits(dec_chars_pad(n, w)),
        dec_val(dec_chars_pad(n, w)) == n,
        dec_chars_pad(n, w).len() >= w,
        dec_chars_pad(n, w).len() >= 1,
{
    lemma_dec_chars_digits(n);
    lemma_dec_val_of_dec_chars(n);
    let s = dec_chars(n);
    if s.len() < w {
        lemma_dec_val_zero_pad(s, (w - s.len()) as nat);
        assert forall|i: int| 0 <= i < dec_chars_pad(n, w).len() implies is_digit_char(
            #[trigger] dec_chars_pad(n, w)[i],
        ) by {
            if i >= w - s.len() {
                assert(dec_chars_pad(n, w)[i] == s[i - (w - s.len())]);
            } else {
                assert(dec_chars_pad(n, w)[i] == '0');
            }
        }
    }
}

/// Appends the decimal rendering of `n` to `out`.
pub fn push_dec(out: &mut Vec<u8>, n: u64)
    ensures
        final(out)@ == old(out)@ + dec_bytes(n as nat),
        chars_of(final(out)@) == chars_of(old(out)@) + dec_chars(n as nat),
        ascii_bytes(old(out)@) ==> ascii_bytes(final(out)@),
    decreases n,
{
    let ghost pre = out@;
    if n < 10 {
        out.push(48 + n as u8);
        proof {
            assert(out@ =~= pre + dec_bytes(n as nat));
            lemma_chars_of_app(pre, dec_bytes(n as nat));
            lemma_dec_bytes_chars(n as nat);
        }
    } else {
        push_dec(out, n / 10);
        out.push(48 + (n % 10) as u8);
        proof {
            assert(out@ =~= pre + dec_bytes(n as nat)) by {
                assert(dec_bytes(n as nat) =~= dec_bytes((n as nat) / 10).push(
                    (48 + (n as nat) % 10) as u8,
                ));
            }
            lemma_chars_of_app(pre, dec_bytes(n as nat));
            lemma_dec_bytes_chars(n as nat);
        }
    }
}

/// The byte-level decimal rendering of `n`.
pub open spec fn dec_bytes(n: nat) -> Seq<u8>
    decreases n,
{
    if n < 10 {
        seq![(48 + n) as u8]
    } else {
        dec_bytes(n / 10).push((48 + n % 10) as u8)
    }
}

/// Byte-level and character-level renderings agree.
pub proof fn lemma_dec_bytes_chars(n: nat)
    ensures
        chars_of(dec_bytes(n)) =~= dec_chars(n),
        ascii_bytes(dec_bytes(n)),
        dec_bytes(n).len() == dec_chars(n).len(),
    decreases n,
{
    if n < 10 {
    } else {
        lemma_dec_bytes_chars(n / 10);
    }
}

/// Sequence concatenation is associative.
pub proof fn lemma_seq_assoc<A>(a: Seq<A>, b: Seq<A>, c: Seq<A>)
    ensures
        (a + b) + c == a + (b + c),
{
    assert((a + b) + c =~= a + (b + c));
}

/// `chars_of` distributes over concatenation.
pub proof fn lemma_chars_of_app(a: Seq<u8>, b: Seq<u8>)
    ensures
        chars_of(a + b) =~= chars_of(a) + chars_of(b),
{
}

/// Powers of ten.
pub open spec fn pow10(w: nat) -> nat
    decreases w,
{
    if w == 0 {
        1
    } else {
        10 * pow10((w - 1) as nat)
    }
}

/// Numbers below `10^w` render in at most `w` digits.
pub proof fn lemma_dec_chars_len_le(n: nat, w: nat)
    requires
        1 <= w,
        n < pow10(w),
    ensures
        dec_chars(n).len() <= w,
    decreases w,
{
    if n < 10 {
    } else {
        assert(pow10(w) == 10 * pow10((w - 1) as nat));
        assert(n / 10 < pow10((w - 1) as nat)) by (nonlinear_arith)
            requires
                n < 10 * pow10((w - 1) as nat),
                10 <= n,
        ;
        lemma_dec_chars_len_le(n / 10, (w - 1) as nat);
    }
}

/// Numbers below `10^w` pad to exactly `w` digits.
pub proof fn lemma_dec_chars_pad_exact(n: nat, w: nat)
    requires
        1 <= w,
        n < pow10(w),
    ensures
        dec_chars_pad(n, w).len() == w,
        all_digits(dec_chars_pad(n, w)),
        dec_val(dec_chars_pad(n, w)) == n,
{
    lemma_dec_chars_len_le(n, w);
    lemma_dec_chars_pad(n, w);
    lemma_dec_chars_digits(n);
}

/// A digit character is none of the punctuation the grammars use.
pub proof fn lemma_digit_not_punct(c: char)
    requires
        is_digit_char(c),
    ensures
        c != '_' && c != '/' && c != '.' && c != '-' && c != ':' && c != 'T' && c != 'Z' && c
            != '+' && c != '*',
{
}

/// A digit string of width `w` denotes a value below `10^w`.
pub proof fn lemma_dec_val_bound(cs: Seq<char>)
    requires
        all_digits(cs),
    ensures
        dec_val(cs) < pow10(cs.len()),
    decreases cs.len(),
{
    if cs.len() > 0 {
        lemma_dec_val_bound(cs.drop_last());
        assert(is_digit_char(cs.last()));
        assert(digit_val(cs.last()) <= 9);
        assert(dec_val(cs.drop_last()) * 10 + 9 < pow10(cs.len())) by (nonlinear_arith)
            requires
                dec_val(cs.drop_last()) < pow10(cs.drop_last().len()),
                pow10(cs.len()) == 10 * pow10(cs.drop_last().len()),
        ;
    }
}

/// Lexicographic order on character sequences, by code point, a
/// proper prefix ordering first.
pub open spec fn lex_lt(a: Seq<char>, b: Seq<char>) -> bool
    decreases a.len(),
{
    if b.len() == 0 {
        false
    } else if a.len() == 0 {
        true
    } else if a[0] != b[0] {
        (a[0] as u32) < (b[0] as u32)
    } else {
        lex_lt(a.skip(1), b.skip(1))
    }
}

/// Compares the tails of two strings from position `i` on.
fn lex_lt_from(a: &str, b: &str, i: usize) -> (r: bool)
    requires
        i <= a@.len(),
        i <= b@.len(),
    ensures
        r == lex_lt(a@.skip(i as int), b@.skip(i as int)),
    decreases a@.len() - i,
{
    let bn = b.unicode_len();
    let an = a.unicode_len();
    if i == bn {
        false
    } else if i == an {
        true
    } else {
        let ca = a.get_char(i);
        let cb = b.get_char(i);
        proof {
            assert(a@.skip(i as int)[0] == a@[i as int]);
            assert(b@.skip(i as int)[0] == b@[i as int]);
            assert(a@.skip(i as int).skip(1) =~= a@.skip(i as int + 1));
            assert(b@.skip(i as int).skip(1) =~= b@.skip(i as int + 1));
        }
        if ca != cb {
            (ca as u32) < (cb as u32)
        } else {
            lex_lt_from(a, b, i + 1)
        }
    }
}

/// Whether `a` reads strictly before `b` in lexicographic order.
pub fn str_lex_lt(a: &str, b: &str) -> (r: bool)
    ensures
        r == lex_lt(a@, b@),
{
    proof {
        assert(a@.skip(0) =~= a@);
        assert(b@.skip(0) =~= b@);
    }
    lex_lt_from(a, b, 0)
}

/// Joining with a separator that neither left part contains is
/// injective.
pub proof fn lemma_sep_concat_inj(a: Seq<char>, b: Seq<char>, x: Seq<char>, y: Seq<char>, sep: char)
    requires
        a + seq![sep] + x == b + seq![sep] + y,
        forall|i: int| 0 <= i < a.len() ==> a[i] != sep,
        forall|i: int| 0 <= i < b.len() ==> b[i] != sep,
    ensures
        a == b,
        x == y,
{
    let s = a + seq![sep] + x;
    let t = b + seq![sep] + y;
    assert(s.len() == a.len() + 1 + x.len());
    assert(t.len() == b.len() + 1 + y.len());
    assert(s[a.len() as int] == sep);
    assert(t[b.len() as int] == sep);
    if a.len() < b.len() {
        assert(t[a.len() as int] == b[a.len() as int]);
        assert(s[a.len() as int] == t[a.len() as int]);
        assert(false);
    }
    if b.len() < a.len() {
        assert(s[b.len() as int] == a[b.len() as int]);
        assert(s[b.len() as int] == t[b.len() as int]);
        assert(false);
    }
    assert(a.len() == b.len());
    assert forall|i: int| 0 <= i < a.len() implies a[i] == b[i] by {
        assert(s[i] == a[i]);
        assert(t[i] == b[i]);
    }
    assert(a =~= b);
    assert(x.len() == y.len());
    assert forall|i: int| 0 <= i < x.len() implies x[i] == y[i] by {
        assert(s[a.len() + 1 + i] == x[i]);
        assert(t[b.len() + 1 + i] == y[i]);
    }
    assert(x =~= y);
}

/// Decimal renderings are injective.
pub proof fn lemma_dec_chars_inj(m: nat, n: nat)
    requires
        dec_chars(m) == dec_chars(n),
    ensures
        m == n,
{
    lemma_dec_val_of_dec_chars(m);
    lemma_dec_val_of_dec_chars(n);
}

/// A digit string is worth at least any of its prefixes.
pub proof fn lemma_dec_val_prefix_mono(cs: Seq<char>, k: int)
    requires
        0 <= k <= cs.len(),
    ensures
        dec_val(cs.take(k)) <= dec_val(cs),
    decreases cs.len(),
{
    if k < cs.len() {
        assert(cs.drop_last().take(k) =~= cs.take(k));
        lemma_dec_val_prefix_mono(cs.drop_last(), k);
    } else {
        assert(cs.take(k) =~= cs);
    }
}

/// Parses the characters `from .. to` of `s` as an unsigned decimal
/// number: defined exactly when that range is a non-empty digit string
/// whose value fits in a `u64`.
pub fn parse_dec_range(s: &str, from: usize, to: usize) -> (r: Option<u64>)
    requires
        from <= to <= s@.len(),
    ensures
        r == spec_parse_dec(s@.subrange(from as int, to as int)),
{
    let ghost cs = s@.subrange(from as int, to as int);
    if from == to {
        return None;
    }
    let mut acc: u64 = 0;
    let mut i: usize = from;
    while i < to
        invariant
            from <= i <= to <= s@.len(),
            cs == s@.subrange(from as int, to as int),
            all_digits(cs.take(i - from)),
            acc as nat == dec_val(cs.take(i - from)),
        decreases to - i,
    {
        let c = s.get_char(i);
        let cu = c as u32;
        if cu < 48 || cu > 57 {
            proof {
                assert(cs[i - from] == c);
                assert(!is_digit_char(c));
            }
            return None;
        }
        let d: u64 = (cu - 48) as u64;
        let shifted = match acc.checked_mul(10) {
            Some(v) => v,
            None => {
                proof {
                    lemma_overflow_implies_large(cs, i - from, acc as nat, d as nat);
                }
                return None;
            },
        };
        let next = match shifted.checked_add(d) {
            Some(v) => v,
            None => {
                proof {
                    lemma_overflow_implies_large(cs, i - from, acc as nat, d as nat);
                }
                return None;
            },
        };
        acc = next;
        i += 1;
        proof {
            assert(cs.take(i - from).drop_last() =~= cs.take(i - from - 1));
            assert(cs.take(i - from).last() == cs[i - from - 1]);
            assert(cs[i - from - 1] == c);
            assert(digit_val(c) == d);
        }
    }
    proof {
        assert(cs.take(to - from) =~= cs);
    }
    Some(acc)
}

/// If extending a digit prefix overflows `u64`, the whole string's value
/// does not fit in a `u64`.
proof fn lemma_overflow_implies_large(cs: Seq<char>, k: int, acc: nat, d: nat)
    requires
        0 <= k < cs.len(),
        acc == dec_val(cs.take(k)),
        digit_val(cs[k]) == d,
        acc * 10 + d > u64::MAX,
    ensures
        dec_val(cs) > u64::MAX,
{
    assert(cs.take(k + 1).drop_last() =~= cs.take(k));
    assert(cs.take(k + 1).last() == cs[k]);
    assert(dec_val(cs.take(k + 1)) == acc * 10 + d);
    lemma_dec_val_prefix_mono(cs, k + 1);
}

/// Appends the decimal rendering of `n`, zero-padded to at least `w`
/// characters.
pub fn push_dec_pad(out: &mut Vec<u8>, n: u64, w: usize)
    ensures
        chars_of(final(out)@) == chars_of(old(out)@) + dec_chars_pad(n as nat, w as nat),
        ascii_bytes(old(out)@) ==> ascii_bytes(final(out)@),
{
    let ghost pre = out@;
    let mut digits: Vec<u8> = Vec::new();
    push_dec(&mut digits, n);
    proof {
        lemma_dec_bytes_chars(n as nat);
    }
    let mut pad: usize = 0;
    let need = if digits.len() < w {
        w - digits.len()
    } else {
        0
    };
    while pad < need
        invariant
            pad <= need,
            need == if dec_bytes(n as nat).len() < w {
                w - dec_bytes(n as nat).len()
            } else {
                0int
            },
            digits@ == dec_bytes(n as nat),
            out@ == pre + Seq::new(pad as nat, |i: int| 48u8),
        decreases need - pad,
    {
        out.push(48);
        pad += 1;
        proof {
            assert(out@ =~= pre + Seq::new(pad as nat, |i: int| 48u8));
        }
    }
    let mut i: usize = 0;
    while i < digits.len()
        invariant
            i <= digits.len(),
            digits@ == dec_bytes(n as nat),
            need == if dec_bytes(n as nat).len() < w {
                w - dec_bytes(n as nat).len()
            } else {
                0int
            },
            out@ == pre + Seq::new(need as nat, |j: int| 48u8) + dec_bytes(n as nat).take(i as int),
        decreases digits.len() - i,
    {
        let b = digits[i];
        out.push(b);
        i += 1;
        proof {
            assert(out@ =~= pre + Seq::new(need as nat, |j: int| 48u8) + dec_bytes(n as nat).take(
                i as int,
            ));
        }
    }
    proof {
        assert(dec_bytes(n as nat).take(digits@.len() as int) =~= dec_bytes(n as nat));
        lemma_dec_bytes_chars(n as nat);
        let zs = Seq::new(need as nat, |j: int| 48u8);
        assert(chars_of(zs) =~= seq_repeat('0', need as nat));
        lemma_chars_of_app(pre + zs, dec_bytes(n as nat));
        lemma_chars_of_app(pre, zs);
        if dec_chars(n as nat).len() >= w {
            assert(need == 0);
            assert(pre + zs =~= pre);
            assert(chars_of(out@) =~= chars_of(pre) + dec_chars_pad(n as nat, w as nat));
        } else {
            assert(chars_of(out@) =~= chars_of(pre) + (seq_repeat('0', need as nat) + dec_chars(
                n as nat,
            )));
            assert(dec_chars_pad(n as nat, w as nat) == seq_repeat('0', need as nat) + dec_chars(
                n as nat,
            ));
        }
    }
}

} // verus!
