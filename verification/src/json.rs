//! Canonical JSON text for message metadata: decimal numbers and strings.
//!
//! The broker and its clients exchange metadata as one canonical JSON
//! rendering; the parser accepts exactly that rendering, so decoding a
//! blob either recovers the encoded value or fails the connection.

use vstd::prelude::*;

verus! {

/// Whether `c` is an ASCII decimal digit.
pub open spec fn is_dig(c: u8) -> bool {
    0x30 <= c <= 0x39
}

/// The canonical decimal digits of `n`, most significant first, no
/// leading zeros.
pub open spec fn dec_u64(n: u64) -> Seq<u8>
    decreases n,
{
    if n < 10 {
        seq![(0x30 + n) as u8]
    } else {
        dec_u64(n / 10) + seq![(0x30 + n % 10) as u8]
    }
}

/// The number denoted by a digit string (read in base ten).
pub open spec fn dec_val(s: Seq<u8>) -> int
    decreases s.len(),
{
    if s.len() == 0 {
        0
    } else {
        dec_val(s.drop_last()) * 10 + (s.last() - 0x30)
    }
}

pub proof fn lemma_dec_u64_digits(n: u64)
    ensures
        dec_u64(n).len() >= 1,
        forall|i: int| 0 <= i < dec_u64(n).len() ==> is_dig(#[trigger] dec_u64(n)[i]),
    decreases n,
{
    if n >= 10 {
        lemma_dec_u64_digits(n / 10);
    }
}

pub proof fn lemma_dec_val_of_dec_u64(n: u64)
    ensures
        dec_val(dec_u64(n)) == n,
    decreases n,
{
    if n < 10 {
        let s = dec_u64(n);
        assert(s == seq![(0x30 + n) as u8]);
        assert(s.drop_last() =~= Seq::<u8>::empty());
        assert(dec_val(Seq::<u8>::empty()) == 0);
        assert(s.last() == (0x30 + n) as u8);
        assert(dec_val(s) == dec_val(s.drop_last()) * 10 + (s.last() - 0x30));
    } else {
        lemma_dec_val_of_dec_u64(n / 10);
        let s = dec_u64(n);
        assert(s == dec_u64(n / 10) + seq![(0x30 + n % 10) as u8]);
        assert(s.drop_last() =~= dec_u64(n / 10));
        assert(s.last() == (0x30 + n % 10) as u8);
        assert(dec_val(s) == dec_val(dec_u64(n / 10)) * 10 + (n % 10));
        vstd::arithmetic::div_mod::lemma_fundamental_div_mod(n as int, 10);
    }
}

/// Canonical digit strings are injective in the value they denote.
pub proof fn lemma_dec_u64_injective(a: u64, b: u64)
    requires
        dec_u64(a) == dec_u64(b),
    ensures
        a == b,
{
    lemma_dec_val_of_dec_u64(a);
    lemma_dec_val_of_dec_u64(b);
}

/// Appends the canonical decimal digits of `n`.
pub fn push_dec_u64(out: &mut Vec<u8>, n: u64)
    ensures
        final(out)@ == old(out)@ + dec_u64(n),
    decreases n,
{
    if n < 10 {
        out.push(0x30 + n as u8);
        assert(out@ =~= old(out)@ + dec_u64(n));
    } else {
        push_dec_u64(out, n / 10);
        out.push(0x30 + (n % 10) as u8);
        assert(out@ =~= old(out)@ + dec_u64(n));
    }
}

/// Greedy parse of decimal digits starting after a first nonzero digit,
/// with `acc` the value of the digits consumed so far.
pub open spec fn spec_parse_dec_loop(b: Seq<u8>, i: int, acc: u64) -> Option<(u64, int)>
    decreases b.len() - i,
{
    if 0 <= i < b.len() && is_dig(b[i]) {
        let d = (b[i] - 0x30) as int;
        if acc * 10 + d <= u64::MAX {
            spec_parse_dec_loop(b, i + 1, (acc * 10 + d) as u64)
        } else {
            None
        }
    } else {
        Some((acc, i))
    }
}

/// Parse of one canonical decimal u64 at position `i`: either a single
/// zero digit, or a nonzero digit followed by further digits.
pub open spec fn spec_parse_dec(b: Seq<u8>, i: int) -> Option<(u64, int)> {
    if 0 <= i < b.len() && is_dig(b[i]) {
        let d = (b[i] - 0x30) as u64;
        if d == 0 {
            if i + 1 < b.len() && is_dig(b[i + 1]) {
                None
            } else {
                Some((0u64, i + 1))
            }
        } else {
            spec_parse_dec_loop(b, i + 1, d)
        }
    } else {
        None
    }
}

proof fn lemma_dec_u64_step(acc: u64, d: u64)
    requires
        1 <= acc,
        d < 10,
        acc * 10 + d <= u64::MAX,
    ensures
        dec_u64((acc * 10 + d) as u64) == dec_u64(acc) + seq![(0x30 + d) as u8],
{
    let v = (acc * 10 + d) as u64;
    assert(v >= 10 && v / 10 == acc && v % 10 == d) by (nonlinear_arith)
        requires
            1 <= acc,
            d < 10,
            v == acc * 10 + d,
    ;
}

/// If the input at `i` continues with the trailing digits `t` of `n`
/// (the digits of `n` minus the digits of `acc` already consumed) and
/// then something that is not a digit, the greedy loop returns `n`.
proof fn lemma_parse_dec_loop_complete(b: Seq<u8>, i: int, acc: u64, n: u64, t: Seq<u8>)
    requires
        1 <= acc,
        dec_u64(n) == dec_u64(acc) + t,
        0 <= i,
        i + t.len() <= b.len(),
        b.subrange(i, i + t.len() as int) == t,
        i + t.len() == b.len() || !is_dig(b[i + t.len()]),
    ensures
        spec_parse_dec_loop(b, i, acc) == Some((n, i + t.len() as int)),
    decreases t.len(),
{
    lemma_dec_u64_digits(n);
    if t.len() == 0 {
        assert(dec_u64(n) =~= dec_u64(acc));
        lemma_dec_u64_injective(n, acc);
        assert(!(i < b.len() && is_dig(b[i])));
    } else {
        let c = t[0];
        assert(c == dec_u64(n)[dec_u64(acc).len() as int]);
        assert(is_dig(c));
        assert(b[i] == c);
        let d = (c - 0x30) as u64;
        // The accumulated value extended by d is a prefix value of n, so
        // it cannot exceed n.
        let acc2 = acc * 10 + d;
        assert(dec_u64(acc).push(c) =~= dec_u64(acc) + seq![c]);
        assert(dec_u64(n).subrange(0, dec_u64(acc).len() + 1 as int) =~= dec_u64(acc) + seq![c]);
        lemma_dec_val_prefix_le(dec_u64(acc) + seq![c], dec_u64(n));
        lemma_dec_val_of_dec_u64(n);
        lemma_dec_val_of_dec_u64(acc);
        assert(dec_val(dec_u64(acc) + seq![c]) == acc * 10 + d) by {
            assert((dec_u64(acc) + seq![c]).drop_last() =~= dec_u64(acc));
            assert((dec_u64(acc) + seq![c]).last() == c);
        }
        assert(acc2 <= n);
        lemma_dec_u64_step(acc, d);
        assert(dec_u64(n) == dec_u64(acc2 as u64) + t.skip(1)) by {
            assert(dec_u64(acc2 as u64) == dec_u64(acc) + seq![c]);
            assert(dec_u64(acc) + t =~= (dec_u64(acc) + seq![c]) + t.skip(1));
        }
        assert(b.subrange(i + 1, i + 1 + t.skip(1).len() as int) =~= t.skip(1)) by {
            assert(forall|k: int|
                0 <= k < t.len() - 1 ==> #[trigger] t.skip(1)[k] == t[k + 1] && b[i + 1 + k] == b.subrange(
                    i,
                    i + t.len() as int,
                )[k + 1]);
        }
        lemma_parse_dec_loop_complete(b, i + 1, acc2 as u64, n, t.skip(1));
    }
}

/// `dec_val` of a prefix (in the digits sense) never exceeds `dec_val`
/// of the whole, when all bytes are digits.
proof fn lemma_dec_val_prefix_le(p: Seq<u8>, w: Seq<u8>)
    requires
        p.len() <= w.len(),
        w.subrange(0, p.len() as int) == p,
        forall|i: int| 0 <= i < w.len() ==> is_dig(#[trigger] w[i]),
    ensures
        dec_val(p) <= dec_val(w),
        dec_val(p) >= 0,
    decreases w.len(),
{
    if p.len() == w.len() {
        assert(p =~= w);
        lemma_dec_val_nonneg(w);
    } else {
        let w2 = w.drop_last();
        assert(w2.subrange(0, p.len() as int) =~= p);
        lemma_dec_val_prefix_le(p, w2);
        lemma_dec_val_nonneg(w2);
        assert(dec_val(w) == dec_val(w2) * 10 + (w.last() - 0x30));
        assert(dec_val(w2) * 10 >= dec_val(w2)) by (nonlinear_arith)
            requires
                dec_val(w2) >= 0,
        ;
    }
}

proof fn lemma_dec_val_nonneg(s: Seq<u8>)
    requires
        forall|i: int| 0 <= i < s.len() ==> is_dig(#[trigger] s[i]),
    ensures
        dec_val(s) >= 0,
    decreases s.len(),
{
    if s.len() > 0 {
        lemma_dec_val_nonneg(s.drop_last());
        assert(dec_val(s.drop_last()) * 10 >= 0) by (nonlinear_arith)
            requires
                dec_val(s.drop_last()) >= 0,
        ;
    }
}

/// Parsing the canonical digits of `n` (followed by a non-digit or the
/// end of input) yields `n` and stops right after those digits.
pub proof fn lemma_parse_dec_complete(b: Seq<u8>, i: int, n: u64)
    requires
        0 <= i,
        i + dec_u64(n).len() <= b.len(),
        b.subrange(i, i + dec_u64(n).len() as int) == dec_u64(n),
        i + dec_u64(n).len() == b.len() || !is_dig(b[i + dec_u64(n).len()]),
    ensures
        spec_parse_dec(b, i) == Some((n, i + dec_u64(n).len() as int)),
{
    lemma_dec_u64_digits(n);
    let s = dec_u64(n);
    assert(b[i] == s[0]);
    if n < 10 {
        assert(s =~= seq![(0x30 + n) as u8]);
        if n == 0 {
        } else {
            assert(b.subrange(i + 1, i + 1) =~= Seq::<u8>::empty());
            lemma_parse_dec_loop_complete(b, i + 1, n, n, Seq::empty());
        }
    } else {
        // The first digit of n is nonzero because the digits of n/10 end
        // with it only when... more directly: dec_u64 of a value >= 10
        // starts with the digits of a nonzero quotient.
        let d0 = (s[0] - 0x30) as u64;
        lemma_dec_first_digit_nonzero(n);
        assert(d0 >= 1);
        assert(dec_u64(d0) =~= seq![s[0]]) by {
            lemma_dec_first_digit(n);
        }
        assert(dec_u64(n) == dec_u64(d0) + s.skip(1)) by {
            assert(dec_u64(d0) + s.skip(1) =~= s);
        }
        assert(b.subrange(i + 1, i + 1 + s.skip(1).len() as int) =~= s.skip(1)) by {
            assert(forall|k: int|
                0 <= k < s.len() - 1 ==> #[trigger] s.skip(1)[k] == s[k + 1] && b[i + 1 + k] == b.subrange(
                    i,
                    i + s.len() as int,
                )[k + 1]);
        }
        lemma_parse_dec_loop_complete(b, i + 1, d0, n, s.skip(1));
    }
}

/// The first canonical digit of a value is never the zero digit unless
/// the value is zero.
proof fn lemma_dec_first_digit_nonzero(n: u64)
    requires
        n >= 1,
    ensures
        dec_u64(n)[0] != 0x30,
    decreases n,
{
    if n >= 10 {
        lemma_dec_first_digit_nonzero(n / 10);
        lemma_dec_u64_digits(n / 10);
    }
}

/// The first canonical digit of any value denotes its leading digit.
proof fn lemma_dec_first_digit(n: u64)
    requires
        n >= 10,
    ensures
        dec_u64((dec_u64(n)[0] - 0x30) as u64) =~= seq![dec_u64(n)[0]],
    decreases n,
{
    lemma_dec_u64_digits(n / 10);
    if n / 10 < 10 {
        assert(dec_u64(n)[0] == (0x30 + n / 10) as u8);
    } else {
        lemma_dec_first_digit(n / 10);
        assert(dec_u64(n)[0] == dec_u64(n / 10)[0]);
    }
}

/// Whatever the greedy loop accepts is the canonical rendering of what
/// it returns: the consumed bytes extend the digits of `acc` to the
/// digits of the result.
proof fn lemma_parse_dec_loop_sound(b: Seq<u8>, i: int, acc: u64, n: u64, j: int)
    requires
        1 <= acc,
        0 <= i <= b.len(),
        spec_parse_dec_loop(b, i, acc) == Some((n, j)),
    ensures
        i <= j <= b.len(),
        dec_u64(n) == dec_u64(acc) + b.subrange(i, j),
        j == b.len() || !is_dig(b[j]),
    decreases b.len() - i,
{
    if i < b.len() && is_dig(b[i]) {
        let d = (b[i] - 0x30) as u64;
        assert(acc * 10 + d <= u64::MAX);
        let acc2 = (acc * 10 + d) as u64;
        lemma_parse_dec_loop_sound(b, i + 1, acc2, n, j);
        lemma_dec_u64_step(acc, d);
        assert(dec_u64(acc) + b.subrange(i, j) =~= (dec_u64(acc) + seq![b[i]]) + b.subrange(
            i + 1,
            j,
        ));
    } else {
        assert(b.subrange(i, i) =~= Seq::<u8>::empty());
        assert(dec_u64(n) =~= dec_u64(acc) + b.subrange(i, j));
    }
}

/// Whatever the decimal parser accepts is the canonical rendering of the
/// value it returns.
pub proof fn lemma_parse_dec_sound(b: Seq<u8>, i: int, n: u64, j: int)
    requires
        0 <= i <= b.len(),
        spec_parse_dec(b, i) == Some((n, j)),
    ensures
        i < j <= b.len(),
        b.subrange(i, j) == dec_u64(n),
        j == b.len() || !is_dig(b[j]),
{
    let d = (b[i] - 0x30) as u64;
    if d == 0 {
        assert(b.subrange(i, j) =~= dec_u64(0));
    } else {
        lemma_parse_dec_loop_sound(b, i + 1, d, n, j);
        assert(dec_u64(d) =~= seq![b[i]]);
        assert(b.subrange(i, j) =~= dec_u64(d) + b.subrange(i + 1, j));
    }
}

/// Reads one canonical decimal u64 at position `i`, mirroring
/// `spec_parse_dec` exactly.
pub fn parse_dec(b: &Vec<u8>, i: usize) -> (r: Option<(u64, usize)>)
    requires
        i <= b@.len(),
    ensures
        match r {
            Some((n, j)) => spec_parse_dec(b@, i as int) == Some((n, j as int)) && i < j
                <= b@.len(),
            None => spec_parse_dec(b@, i as int) is None,
        },
{
    let l = b.len();
    if !(i < l && 0x30 <= b[i] && b[i] <= 0x39) {
        return None;
    }
    let d = (b[i] - 0x30) as u64;
    if d == 0 {
        if i + 1 < l && 0x30 <= b[i + 1] && b[i + 1] <= 0x39 {
            return None;
        }
        return Some((0, i + 1));
    }
    parse_dec_loop(b, i + 1, d)
}

/// Greedy digit loop of `parse_dec`, mirroring `spec_parse_dec_loop`.
fn parse_dec_loop(b: &Vec<u8>, i: usize, acc: u64) -> (r: Option<(u64, usize)>)
    requires
        i <= b@.len(),
    ensures
        match r {
            Some((n, j)) => spec_parse_dec_loop(b@, i as int, acc) == Some((n, j as int)) && i <= j
                <= b@.len(),
            None => spec_parse_dec_loop(b@, i as int, acc) is None,
        },
    decreases b@.len() - i,
{
    let l = b.len();
    if i < l && 0x30 <= b[i] && b[i] <= 0x39 {
        let dd = (b[i] - 0x30) as u64;
        if acc <= (u64::MAX - dd) / 10 {
            assert(acc * 10 + dd <= u64::MAX) by (nonlinear_arith)
                requires
                    acc <= (u64::MAX - dd) / 10,
                    dd <= 9,
            ;
            parse_dec_loop(b, i + 1, acc * 10 + dd)
        } else {
            assert(acc * 10 + dd > u64::MAX) by (nonlinear_arith)
                requires
                    acc > (u64::MAX - dd) / 10,
                    dd <= 9,
            ;
            None
        }
    } else {
        Some((acc, i))
    }
}

/// A string is fit for the wire when it has no control bytes; anything
/// else, quotes and backslashes included, travels escaped.
pub open spec fn wf_str(s: Seq<u8>) -> bool {
    forall|i: int| 0 <= i < s.len() ==> #[trigger] s[i] >= 0x20
}

/// Escape of one byte inside a JSON string.
pub open spec fn esc_byte(c: u8) -> Seq<u8> {
    if c == 0x22 || c == 0x5c {
        seq![0x5cu8, c]
    } else {
        seq![c]
    }
}

/// Escape of a whole byte string.
pub open spec fn esc(s: Seq<u8>) -> Seq<u8>
    decreases s.len(),
{
    if s.len() == 0 {
        Seq::empty()
    } else {
        esc_byte(s[0]) + esc(s.skip(1))
    }
}

/// A quoted, escaped JSON string.
pub open spec fn jstr(s: Seq<u8>) -> Seq<u8> {
    seq![0x22u8] + esc(s) + seq![0x22u8]
}

pub proof fn lemma_esc_concat(a: Seq<u8>, b: Seq<u8>)
    ensures
        esc(a + b) == esc(a) + esc(b),
    decreases a.len(),
{
    if a.len() == 0 {
        assert(a + b =~= b);
        assert(esc(a) + esc(b) =~= esc(b));
    } else {
        lemma_esc_concat(a.skip(1), b);
        assert((a + b).skip(1) =~= a.skip(1) + b);
        assert(esc(a + b) == esc_byte(a[0]) + (esc(a.skip(1)) + esc(b)));
        assert(esc_byte(a[0]) + (esc(a.skip(1)) + esc(b)) =~= (esc_byte(a[0]) + esc(a.skip(1)))
            + esc(b));
    }
}

/// Appends the escaped bytes of `s`.
pub fn push_esc(out: &mut Vec<u8>, s: &Vec<u8>)
    ensures
        final(out)@ == old(out)@ + esc(s@),
{
    let l = s.len();
    let mut i: usize = 0;
    while i < l
        invariant
            i <= l,
            l == s@.len(),
            out@ == old(out)@ + esc(s@.subrange(0, i as int)),
        decreases l - i,
    {
        let c = s[i];
        if c == 0x22 || c == 0x5c {
            out.push(0x5c);
            out.push(c);
        } else {
            out.push(c);
        }
        proof {
            lemma_esc_concat(s@.subrange(0, i as int), seq![s@[i as int]]);
            assert(s@.subrange(0, i + 1) =~= s@.subrange(0, i as int) + seq![s@[i as int]]);
            assert(seq![s@[i as int]].skip(1) =~= Seq::<u8>::empty());
            assert(esc(seq![s@[i as int]]) =~= esc_byte(s@[i as int]) + esc(Seq::<u8>::empty()));
            assert(esc(seq![s@[i as int]]) =~= esc_byte(s@[i as int]));
            assert(out@ =~= old(out)@ + esc(s@.subrange(0, i + 1)));
        }
        i = i + 1;
    }
    assert(s@.subrange(0, s@.len() as int) =~= s@);
}

/// Appends `s` as a quoted JSON string.
pub fn push_jstr(out: &mut Vec<u8>, s: &Vec<u8>)
    ensures
        final(out)@ == old(out)@ + jstr(s@),
{
    out.push(0x22);
    push_esc(out, s);
    out.push(0x22);
    assert(out@ =~= old(out)@ + jstr(s@));
}

/// Parse of a JSON string body after the opening quote; `acc` holds the
/// bytes already unescaped.
pub open spec fn spec_parse_str_body(b: Seq<u8>, i: int, acc: Seq<u8>) -> Option<(Seq<u8>, int)>
    decreases b.len() - i,
{
    if !(0 <= i < b.len()) {
        None
    } else {
        let c = b[i];
        if c == 0x22 {
            Some((acc, i + 1))
        } else if c == 0x5c {
            if i + 1 < b.len() && (b[i + 1] == 0x22 || b[i + 1] == 0x5c) {
                spec_parse_str_body(b, i + 2, acc.push(b[i + 1]))
            } else {
                None
            }
        } else if c >= 0x20 {
            spec_parse_str_body(b, i + 1, acc.push(c))
        } else {
            None
        }
    }
}

/// Parse of a quoted JSON string at position `i`.
pub open spec fn spec_parse_jstr(b: Seq<u8>, i: int) -> Option<(Seq<u8>, int)> {
    if 0 <= i < b.len() && b[i] == 0x22 {
        spec_parse_str_body(b, i + 1, Seq::empty())
    } else {
        None
    }
}

proof fn lemma_parse_str_body_complete(b: Seq<u8>, i: int, acc: Seq<u8>, s: Seq<u8>)
    requires
        wf_str(s),
        0 <= i,
        i + esc(s).len() + 1 <= b.len(),
        b.subrange(i, i + esc(s).len() as int) == esc(s),
        b[i + esc(s).len()] == 0x22,
    ensures
        spec_parse_str_body(b, i, acc) == Some((acc + s, i + esc(s).len() + 1)),
    decreases s.len(),
{
    if s.len() == 0 {
        assert(b[i] == 0x22);
        assert(acc + s =~= acc);
    } else {
        let c = s[0];
        assert(s[0] >= 0x20);
        let s2 = s.skip(1);
        assert(esc(s) == esc_byte(c) + esc(s2));
        let el = esc_byte(c).len();
        assert(b.subrange(i + el, i + esc(s).len() as int) =~= esc(s2)) by {
            assert(forall|k: int|
                0 <= k < esc(s2).len() ==> b.subrange(i, i + esc(s).len() as int)[el + k]
                    == #[trigger] esc(s2)[k]);
        }
        assert(b[i] == esc(s)[0]);
        if c == 0x22 || c == 0x5c {
            assert(b[i] == 0x5c);
            assert(b[i + 1] == esc(s)[1] == c);
            lemma_parse_str_body_complete(b, i + 2, acc.push(c), s2);
            assert(acc.push(c) + s2 =~= acc + s);
        } else {
            assert(b[i] == c);
            lemma_parse_str_body_complete(b, i + 1, acc.push(c), s2);
            assert(acc.push(c) + s2 =~= acc + s);
        }
    }
}

/// Parsing the quoted rendering of a well-formed string recovers it.
pub proof fn lemma_parse_jstr_complete(b: Seq<u8>, i: int, s: Seq<u8>)
    requires
        wf_str(s),
        0 <= i,
        i + jstr(s).len() <= b.len(),
        b.subrange(i, i + jstr(s).len() as int) == jstr(s),
    ensures
        spec_parse_jstr(b, i) == Some((s, i + jstr(s).len() as int)),
{
    assert(b[i] == jstr(s)[0]);
    assert(b.subrange(i + 1, i + 1 + esc(s).len() as int) =~= esc(s)) by {
        assert(forall|k: int|
            0 <= k < esc(s).len() ==> b.subrange(i, i + jstr(s).len() as int)[1 + k]
                == #[trigger] esc(s)[k]);
    }
    assert(b[i + 1 + esc(s).len()] == jstr(s)[1 + esc(s).len() as int]);
    lemma_parse_str_body_complete(b, i + 1, Seq::empty(), s);
    assert(Seq::empty() + s =~= s);
}

proof fn lemma_parse_str_body_sound(b: Seq<u8>, i: int, acc: Seq<u8>, s: Seq<u8>, j: int)
    requires
        0 <= i <= b.len(),
        spec_parse_str_body(b, i, acc) == Some((s, j)),
    ensures
        i < j <= b.len(),
        acc.len() <= s.len(),
        s.subrange(0, acc.len() as int) == acc,
        wf_str(s.skip(acc.len() as int)),
        b.subrange(i, j) == esc(s.skip(acc.len() as int)) + seq![0x22u8],
    decreases b.len() - i,
{
    let c = b[i];
    if c == 0x22 {
        assert(s == acc);
        assert(s.subrange(0, acc.len() as int) =~= acc);
        let t = s.skip(acc.len() as int);
        assert(t =~= Seq::<u8>::empty());
        assert(b.subrange(i, j) =~= esc(t) + seq![0x22u8]);
    } else if c == 0x5c {
        let d = b[i + 1];
        lemma_parse_str_body_sound(b, i + 2, acc.push(d), s, j);
        let t = s.skip(acc.len() as int);
        let t2 = s.skip(acc.len() + 1 as int);
        assert(s.subrange(0, acc.len() as int) =~= acc) by {
            assert(forall|k: int|
                0 <= k < acc.len() ==> s.subrange(0, acc.len() + 1 as int)[k] == #[trigger] acc.push(
                    d,
                )[k]);
        }
        assert(t[0] == s[acc.len() as int] == acc.push(d)[acc.len() as int] == d);
        assert(t.skip(1) =~= t2);
        assert(esc(t) == esc_byte(d) + esc(t2));
        assert(b.subrange(i, j) =~= seq![0x5cu8, d] + b.subrange(i + 2, j));
        assert(esc_byte(d) == seq![0x5cu8, d]);
        assert(b.subrange(i, j) =~= esc(t) + seq![0x22u8]);
        assert(wf_str(t)) by {
            assert(forall|k: int| 1 <= k < t.len() ==> #[trigger] t[k] == t2[k - 1]);
        }
    } else {
        lemma_parse_str_body_sound(b, i + 1, acc.push(c), s, j);
        let t = s.skip(acc.len() as int);
        let t2 = s.skip(acc.len() + 1 as int);
        assert(s.subrange(0, acc.len() as int) =~= acc) by {
            assert(forall|k: int|
                0 <= k < acc.len() ==> s.subrange(0, acc.len() + 1 as int)[k] == #[trigger] acc.push(
                    c,
                )[k]);
        }
        assert(t[0] == s[acc.len() as int] == acc.push(c)[acc.len() as int] == c);
        assert(t.skip(1) =~= t2);
        assert(esc(t) == esc_byte(c) + esc(t2));
        assert(esc_byte(c) == seq![c]);
        assert(b.subrange(i, j) =~= seq![c] + b.subrange(i + 1, j));
        assert(b.subrange(i, j) =~= esc(t) + seq![0x22u8]);
        assert(wf_str(t)) by {
            assert(forall|k: int| 1 <= k < t.len() ==> #[trigger] t[k] == t2[k - 1]);
        }
    }
}

/// Whatever the string parser accepts is the quoted rendering of the
/// well-formed string it returns.
pub proof fn lemma_parse_jstr_sound(b: Seq<u8>, i: int, s: Seq<u8>, j: int)
    requires
        0 <= i <= b.len(),
        spec_parse_jstr(b, i) == Some((s, j)),
    ensures
        i < j <= b.len(),
        wf_str(s),
        b.subrange(i, j) == jstr(s),
{
    lemma_parse_str_body_sound(b, i + 1, Seq::empty(), s, j);
    assert(s.skip(0) =~= s);
    assert(b.subrange(i, j) =~= seq![0x22u8] + b.subrange(i + 1, j));
}

/// Reads a quoted JSON string at position `i`, mirroring
/// `spec_parse_jstr` exactly.
pub fn parse_jstr(b: &Vec<u8>, i: usize) -> (r: Option<(Vec<u8>, usize)>)
    requires
        i <= b@.len(),
    ensures
        match r {
            Some((s, j)) => spec_parse_jstr(b@, i as int) == Some((s@, j as int)) && i < j
                <= b@.len(),
            None => spec_parse_jstr(b@, i as int) is None,
        },
{
    let l = b.len();
    if !(i < l && b[i] == 0x22) {
        return None;
    }
    let mut out: Vec<u8> = Vec::new();
    let mut j: usize = i + 1;
    loop
        invariant
            i + 1 <= j <= b@.len(),
            l == b@.len(),
            spec_parse_jstr(b@, i as int) == spec_parse_str_body(b@, j as int, out@),
        decreases b@.len() - j + 1,
    {
        if j >= l {
            return None;
        }
        let c = b[j];
        if c == 0x22 {
            return Some((out, j + 1));
        } else if c == 0x5c {
            if j + 1 < l && (b[j + 1] == 0x22 || b[j + 1] == 0x5c) {
                out.push(b[j + 1]);
                j = j + 2;
            } else {
                return None;
            }
        } else if c >= 0x20 {
            out.push(c);
            j = j + 1;
        } else {
            return None;
        }
    }
}

} // verus!
