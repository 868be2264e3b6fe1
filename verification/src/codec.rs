//! The textual log-record format for transactions.
//!
//! A transaction is written as one line of the form
//! `{"from":"F","to":"T","value":N}`: a key-tagged record whose field
//! names are preserved, with the two addresses escaped so that any
//! address string round-trips through a single line, and the value in
//! canonical decimal. Decoding accepts exactly what encoding produces,
//! so a log replayed line by line reconstructs the original
//! transactions.

use vstd::prelude::*;
use vstd::string::StrSliceExecFns;

use crate::tx::Transaction;
use crate::tx::TxView;

verus! {

// ---------------------------------------------------------------------------
// Decimal digits
// ---------------------------------------------------------------------------

/// The character for a single decimal digit.
pub open spec fn spec_digit_char(d: nat) -> char {
    if d == 0 {
        '0'
    } else if d == 1 {
        '1'
    } else if d == 2 {
        '2'
    } else if d == 3 {
        '3'
    } else if d == 4 {
        '4'
    } else if d == 5 {
        '5'
    } else if d == 6 {
        '6'
    } else if d == 7 {
        '7'
    } else if d == 8 {
        '8'
    } else {
        '9'
    }
}

/// The value of a decimal digit character, `None` for any other character.
pub open spec fn spec_digit_val(c: char) -> Option<nat> {
    if c == '0' {
        Some(0nat)
    } else if c == '1' {
        Some(1nat)
    } else if c == '2' {
        Some(2nat)
    } else if c == '3' {
        Some(3nat)
    } else if c == '4' {
        Some(4nat)
    } else if c == '5' {
        Some(5nat)
    } else if c == '6' {
        Some(6nat)
    } else if c == '7' {
        Some(7nat)
    } else if c == '8' {
        Some(8nat)
    } else if c == '9' {
        Some(9nat)
    } else {
        None
    }
}

/// The canonical decimal rendering of `n`: no sign, no leading zeros,
/// a single `0` for zero.
pub open spec fn spec_dec(n: nat) -> Seq<char>
    decreases n,
{
    if n < 10 {
        seq![spec_digit_char(n)]
    } else {
        spec_dec(n / 10) + seq![spec_digit_char(n % 10)]
    }
}

/// The numeric value of a sequence of digit characters (most
/// significant first); `None` if any character is not a digit.
/// The empty sequence reads as zero.
pub open spec fn spec_digits_val(s: Seq<char>) -> Option<nat>
    decreases s.len(),
{
    if s.len() == 0 {
        Some(0nat)
    } else {
        match (spec_digits_val(s.drop_last()), spec_digit_val(s.last())) {
            (Some(v), Some(d)) => Some(v * 10 + d),
            _ => None,
        }
    }
}

/// Reads a canonical decimal `u64`: at least one digit, no leading
/// zero (except for `0` itself), and a value that fits in 64 bits.
pub open spec fn spec_parse_u64(s: Seq<char>) -> Option<u64> {
    if s.len() == 0 {
        None
    } else if s.len() > 1 && s[0] == '0' {
        None
    } else {
        match spec_digits_val(s) {
            Some(v) => if v <= u64::MAX { Some(v as u64) } else { None },
            None => None,
        }
    }
}

// ---------------------------------------------------------------------------
// Address escaping
// ---------------------------------------------------------------------------

/// How a single address character appears inside a quoted field:
/// the quote, the backslash and the newline are escaped (the newline
/// so that a record never spans more than one line), every other
/// character stands for itself.
pub open spec fn esc_char(c: char) -> Seq<char> {
    if c == '"' {
        seq!['\\', '"']
    } else if c == '\\' {
        seq!['\\', '\\']
    } else if c == '\n' {
        seq!['\\', 'n']
    } else {
        seq![c]
    }
}

/// The escaped form of a whole address.
pub open spec fn esc(s: Seq<char>) -> Seq<char>
    decreases s.len(),
{
    if s.len() == 0 {
        Seq::empty()
    } else {
        esc_char(s[0]) + esc(s.drop_first())
    }
}

/// Reads a quoted field from `s` up to its closing quote: returns the
/// unescaped field and whatever follows the closing quote, or `None`
/// when the field is unterminated or an escape is malformed.
pub open spec fn unesc(s: Seq<char>) -> Option<(Seq<char>, Seq<char>)>
    decreases s.len(),
{
    if s.len() == 0 {
        None
    } else if s[0] == '"' {
        Some((Seq::empty(), s.drop_first()))
    } else if s[0] == '\\' {
        if s.len() < 2 {
            None
        } else {
            let d = if s[1] == '"' {
                Some('"')
            } else if s[1] == '\\' {
                Some('\\')
            } else if s[1] == 'n' {
                Some('\n')
            } else {
                None
            };
            match d {
                Some(c) => match unesc(s.skip(2)) {
                    Some(p) => Some((seq![c] + p.0, p.1)),
                    None => None,
                },
                None => None,
            }
        }
    } else {
        match unesc(s.drop_first()) {
            Some(p) => Some((seq![s[0]] + p.0, p.1)),
            None => None,
        }
    }
}

// ---------------------------------------------------------------------------
// The record shape
// ---------------------------------------------------------------------------

/// The opening of a record, up to the first quoted field.
pub open spec fn lit_from() -> Seq<char> {
    seq!['{', '"', 'f', 'r', 'o', 'm', '"', ':', '"']
}

/// The separator between the first and the second quoted field.
pub open spec fn lit_to() -> Seq<char> {
    seq![',', '"', 't', 'o', '"', ':', '"']
}

/// The separator between the second quoted field and the value.
pub open spec fn lit_value() -> Seq<char> {
    seq![',', '"', 'v', 'a', 'l', 'u', 'e', '"', ':']
}

/// The one-line record for a transaction.
pub open spec fn spec_encode(t: TxView) -> Seq<char> {
    lit_from() + esc(t.from) + seq!['"'] + lit_to() + esc(t.to) + seq!['"'] + lit_value()
        + spec_dec(t.value as nat) + seq!['}']
}

/// Reads a one-line record back; `None` on anything that `spec_encode`
/// could not have produced.
pub open spec fn spec_decode(s: Seq<char>) -> Option<TxView> {
    if s.len() < 9 || s.take(9) != lit_from() {
        None
    } else {
        match unesc(s.skip(9)) {
            None => None,
            Some((from, r1)) => if r1.len() < 7 || r1.take(7) != lit_to() {
                None
            } else {
                match unesc(r1.skip(7)) {
                    None => None,
                    Some((to, r2)) => if r2.len() < 9 || r2.take(9) != lit_value() {
                        None
                    } else {
                        let r3 = r2.skip(9);
                        if r3.len() < 2 || r3.last() != '}' {
                            None
                        } else {
                            match spec_parse_u64(r3.drop_last()) {
                                Some(v) => Some(TxView { from, to, value: v }),
                                None => None,
                            }
                        }
                    },
                }
            },
        }
    }
}

// ---------------------------------------------------------------------------
// Digit lemmas
// ---------------------------------------------------------------------------

/// The canonical decimal rendering of `n` reads back as `n`, is never
/// empty, and starts with a zero only for `n == 0` itself.
pub proof fn lemma_dec_digits(n: nat)
    ensures
        spec_digits_val(spec_dec(n)) == Some(n),
        spec_dec(n).len() >= 1,
        n > 0 ==> spec_dec(n)[0] != '0',
        n == 0 ==> spec_dec(n) == seq!['0'],
    decreases n,
{
    if n < 10 {
        let s = spec_dec(n);
        assert(s == seq![spec_digit_char(n)]);
        assert(s.drop_last() =~= Seq::<char>::empty());
        assert(spec_digits_val(Seq::<char>::empty()) == Some(0nat));
        assert(spec_digit_val(s.last()) == Some(n));
        assert(spec_digits_val(s) == Some(0nat * 10 + n));
        if n == 0 {
            assert(s =~= seq!['0']);
        }
    } else {
        vstd::arithmetic::div_mod::lemma_fundamental_div_mod(n as int, 10);
        vstd::arithmetic::div_mod::lemma_mod_bound(n as int, 10);
        vstd::arithmetic::div_mod::lemma_div_decreases(n as int, 10);
        let q = n / 10;
        let r = n % 10;
        lemma_dec_digits(q);
        let s = spec_dec(n);
        assert(s == spec_dec(q) + seq![spec_digit_char(r)]);
        assert(s.drop_last() =~= spec_dec(q));
        assert(s.last() == spec_digit_char(r));
        assert(spec_digit_val(spec_digit_char(r)) == Some(r));
        assert(spec_digits_val(s) == Some(q * 10 + r));
        assert(q * 10 + r == n);
        assert(s[0] == spec_dec(q)[0]);
        assert(q > 0 ==> s[0] != '0');
        assert(q == 0 ==> n < 10) by {
            if q == 0 {
                assert(n == q * 10 + r);
            }
        }
    }
}

/// A prefix of a digit string never reads as more than the whole.
pub proof fn lemma_digits_val_prefix(s: Seq<char>, k: int)
    requires
        0 <= k <= s.len(),
        spec_digits_val(s) is Some,
    ensures
        spec_digits_val(s.take(k)) is Some,
        spec_digits_val(s.take(k)).unwrap() <= spec_digits_val(s).unwrap(),
    decreases s.len(),
{
    if k == s.len() {
        assert(s.take(k) =~= s);
    } else {
        let p = s.drop_last();
        assert(spec_digits_val(p) is Some);
        assert(p.take(k) =~= s.take(k));
        lemma_digits_val_prefix(p, k);
        let v = spec_digits_val(p).unwrap();
        let d = spec_digit_val(s.last()).unwrap();
        assert(spec_digits_val(s).unwrap() == v * 10 + d);
        assert(v <= v * 10 + d) by (nonlinear_arith)
            requires v >= 0 && d >= 0,
        ;
    }
}

// ---------------------------------------------------------------------------
// Escape lemmas
// ---------------------------------------------------------------------------

/// Escaping commutes with appending one character.
pub proof fn lemma_esc_snoc(s: Seq<char>, c: char)
    ensures
        esc(s.push(c)) == esc(s) + esc_char(c),
    decreases s.len(),
{
    if s.len() == 0 {
        assert(s.push(c)[0] == c);
        assert(s.push(c).drop_first() =~= Seq::<char>::empty());
        assert(esc(Seq::<char>::empty()) =~= Seq::<char>::empty());
        assert(esc(s.push(c)) =~= esc(s) + esc_char(c));
    } else {
        assert(s.push(c)[0] == s[0]);
        assert(s.push(c).drop_first() =~= s.drop_first().push(c));
        lemma_esc_snoc(s.drop_first(), c);
        assert(esc(s.push(c)) == esc_char(s[0]) + (esc(s.drop_first()) + esc_char(c)));
        assert(esc_char(s[0]) + (esc(s.drop_first()) + esc_char(c)) =~= (esc_char(s[0])
            + esc(s.drop_first())) + esc_char(c));
    }
}

/// Reading a quoted field back out of its escaped form recovers the
/// original address and leaves whatever followed the closing quote.
pub proof fn lemma_unesc_esc(s: Seq<char>, rest: Seq<char>)
    ensures
        unesc(esc(s) + seq!['"'] + rest) == Some((s, rest)),
    decreases s.len(),
{
    let input = esc(s) + seq!['"'] + rest;
    if s.len() == 0 {
        assert(esc(s) =~= Seq::<char>::empty());
        assert(input[0] == '"');
        assert(input.drop_first() =~= rest);
        assert(unesc(input) == Some((Seq::<char>::empty(), rest)));
        assert(s =~= Seq::<char>::empty());
    } else {
        let c = s[0];
        let tail = s.drop_first();
        lemma_unesc_esc(tail, rest);
        let sub = esc(tail) + seq!['"'] + rest;
        assert(esc(s) == esc_char(c) + esc(tail));
        if c == '"' {
            assert(input =~= seq!['\\', '"'] + sub);
            assert(input[0] == '\\' && input.len() >= 2 && input[1] == '"');
            assert(input.skip(2) =~= sub);
            assert(unesc(input) == Some((seq!['"'] + tail, rest)));
            assert(seq!['"'] + tail =~= s);
        } else if c == '\\' {
            assert(input =~= seq!['\\', '\\'] + sub);
            assert(input[0] == '\\' && input.len() >= 2 && input[1] == '\\');
            assert(input.skip(2) =~= sub);
            assert(unesc(input) == Some((seq!['\\'] + tail, rest)));
            assert(seq!['\\'] + tail =~= s);
        } else if c == '\n' {
            assert(input =~= seq!['\\', 'n'] + sub);
            assert(input[0] == '\\' && input.len() >= 2 && input[1] == 'n');
            assert(input.skip(2) =~= sub);
            assert(unesc(input) == Some((seq!['\n'] + tail, rest)));
            assert(seq!['\n'] + tail =~= s);
        } else {
            assert(input =~= seq![c] + sub);
            assert(input[0] == c && c != '"' && c != '\\');
            assert(input.drop_first() =~= sub);
            assert(unesc(input) == Some((seq![c] + tail, rest)));
            assert(seq![c] + tail =~= s);
        }
    }
}

// ---------------------------------------------------------------------------
// Executable encoding
// ---------------------------------------------------------------------------

/// Relies on `core::iter::Iterator::collect` building a `String` out
/// of exactly the characters the iterator yields, in order.
#[verifier::external_body]
fn chars_to_string(v: &Vec<char>) -> (r: String)
    ensures
        r@ == v@,
{
    v.iter().collect()
}

/// The characters of a string slice, as a vector.
fn str_chars(s: &str) -> (r: Vec<char>)
    ensures
        r@ == s@,
{
    let n: usize = s.unicode_len();
    let mut v: Vec<char> = Vec::new();
    let mut i: usize = 0;
    while i < n
        invariant
            i <= n,
            n == s@.len(),
            v@ == s@.take(i as int),
        decreases n - i,
    {
        let c = s.get_char(i);
        v.push(c);
        proof {
            assert(s@.take(i as int).push(s@[i as int]) =~= s@.take(i + 1 as int));
        }
        i = i + 1;
    }
    proof {
        assert(s@.take(n as int) =~= s@);
    }
    v
}

fn digit_to_char(d: u64) -> (c: char)
    requires
        d < 10,
    ensures
        c == spec_digit_char(d as nat),
{
    if d == 0 {
        '0'
    } else if d == 1 {
        '1'
    } else if d == 2 {
        '2'
    } else if d == 3 {
        '3'
    } else if d == 4 {
        '4'
    } else if d == 5 {
        '5'
    } else if d == 6 {
        '6'
    } else if d == 7 {
        '7'
    } else if d == 8 {
        '8'
    } else {
        '9'
    }
}

fn char_to_digit(c: char) -> (r: Option<u64>)
    ensures
        r is Some <==> spec_digit_val(c) is Some,
        r is Some ==> spec_digit_val(c) == Some(r.unwrap() as nat) && r.unwrap() < 10,
{
    if c == '0' {
        Some(0)
    } else if c == '1' {
        Some(1)
    } else if c == '2' {
        Some(2)
    } else if c == '3' {
        Some(3)
    } else if c == '4' {
        Some(4)
    } else if c == '5' {
        Some(5)
    } else if c == '6' {
        Some(6)
    } else if c == '7' {
        Some(7)
    } else if c == '8' {
        Some(8)
    } else if c == '9' {
        Some(9)
    } else {
        None
    }
}

/// Appends the canonical decimal rendering of `n`.
fn push_dec(out: &mut Vec<char>, n: u64)
    ensures
        final(out)@ == old(out)@ + spec_dec(n as nat),
    decreases n,
{
    if n < 10 {
        let c = digit_to_char(n);
        out.push(c);
        proof {
            assert(out@ =~= old(out)@ + spec_dec(n as nat));
        }
    } else {
        proof {
            vstd::arithmetic::div_mod::lemma_div_decreases(n as int, 10);
            vstd::arithmetic::div_mod::lemma_mod_bound(n as int, 10);
        }
        let q = n / 10;
        let r = n % 10;
        push_dec(out, q);
        let c = digit_to_char(r);
        out.push(c);
        proof {
            assert(spec_dec(n as nat) == spec_dec(n as nat / 10) + seq![spec_digit_char(
                n as nat % 10,
            )]);
            assert(out@ =~= old(out)@ + spec_dec(n as nat));
        }
    }
}

/// Appends the escaped form of an address.
fn push_escaped(out: &mut Vec<char>, s: &String)
    ensures
        final(out)@ == old(out)@ + esc(s@),
{
    let cs = str_chars(s.as_str());
    let n = cs.len();
    let mut i: usize = 0;
    while i < n
        invariant
            i <= n,
            n == cs@.len(),
            cs@ == s@,
            out@ == old(out)@ + esc(s@.take(i as int)),
        decreases n - i,
    {
        let c = cs[i];
        if c == '"' {
            out.push('\\');
            out.push('"');
        } else if c == '\\' {
            out.push('\\');
            out.push('\\');
        } else if c == '\n' {
            out.push('\\');
            out.push('n');
        } else {
            out.push(c);
        }
        proof {
            lemma_esc_snoc(s@.take(i as int), s@[i as int]);
            assert(s@.take(i as int).push(s@[i as int]) =~= s@.take(i + 1 as int));
            assert(out@ =~= old(out)@ + esc(s@.take(i + 1 as int)));
        }
        i = i + 1;
    }
    proof {
        assert(s@.take(n as int) =~= s@);
    }
}

/// The one-line log record for a transaction, exactly `spec_encode`.
pub fn encode_tx(tx: &Transaction) -> (r: String)
    ensures
        r@ == spec_encode(tx@),
{
    let mut out: Vec<char> = Vec::new();
    out.push('{');
    out.push('"');
    out.push('f');
    out.push('r');
    out.push('o');
    out.push('m');
    out.push('"');
    out.push(':');
    out.push('"');
    proof {
        assert(out@ =~= lit_from());
    }
    push_escaped(&mut out, &tx.from);
    out.push('"');
    proof {
        assert(out@ =~= lit_from() + esc(tx@.from) + seq!['"']);
    }
    out.push(',');
    out.push('"');
    out.push('t');
    out.push('o');
    out.push('"');
    out.push(':');
    out.push('"');
    let ghost mid = out@;
    proof {
        assert(mid =~= lit_from() + esc(tx@.from) + seq!['"'] + lit_to());
    }
    push_escaped(&mut out, &tx.to);
    out.push('"');
    out.push(',');
    out.push('"');
    out.push('v');
    out.push('a');
    out.push('l');
    out.push('u');
    out.push('e');
    out.push('"');
    out.push(':');
    let ghost mid2 = out@;
    proof {
        assert(mid2 =~= mid + esc(tx@.to) + seq!['"'] + lit_value());
    }
    push_dec(&mut out, tx.value);
    out.push('}');
    proof {
        assert(out@ =~= mid2 + spec_dec(tx@.value as nat) + seq!['}']);
        assert(out@ =~= spec_encode(tx@));
    }
    chars_to_string(&out)
}

// ---------------------------------------------------------------------------
// Executable decoding
// ---------------------------------------------------------------------------

/// A character of a digit string that does not read as a digit spoils
/// the whole string.
proof fn lemma_digits_val_char(s: Seq<char>, k: int)
    requires
        0 <= k < s.len(),
        spec_digits_val(s) is Some,
    ensures
        spec_digit_val(s[k]) is Some,
    decreases s.len(),
{
    if k < s.len() - 1 {
        lemma_digits_val_char(s.drop_last(), k);
        assert(s.drop_last()[k] == s[k]);
    }
}

/// Prepends field characters already read to the outcome of reading
/// the remainder of a quoted field.
spec fn unesc_cont(p: Seq<char>, o: Option<(Seq<char>, Seq<char>)>) -> Option<
    (Seq<char>, Seq<char>),
> {
    match o {
        Some(q) => Some((p + q.0, q.1)),
        None => None,
    }
}

proof fn lemma_unesc_cont_push(p: Seq<char>, c: char, o: Option<(Seq<char>, Seq<char>)>)
    ensures
        unesc_cont(p, unesc_cont(seq![c], o)) == unesc_cont(p.push(c), o),
{
    match o {
        Some(q) => {
            assert(p + (seq![c] + q.0) =~= p.push(c) + q.0);
        },
        None => {},
    }
}

/// Reads one quoted field starting at `start`; returns the field and
/// the index just past its closing quote.
fn scan_field(cs: &Vec<char>, start: usize) -> (r: Option<(Vec<char>, usize)>)
    requires
        start <= cs@.len(),
    ensures
        match unesc(cs@.skip(start as int)) {
            Some(p) => r matches Some(q) && q.0@ == p.0 && start < q.1 <= cs@.len() && p.1 == cs@.skip(
                q.1 as int,
            ),
            None => r is None,
        },
{
    let mut field: Vec<char> = Vec::new();
    let mut i = start;
    loop
        invariant
            start <= i <= cs@.len(),
            unesc(cs@.skip(start as int)) == unesc_cont(field@, unesc(cs@.skip(i as int))),
        decreases cs@.len() - i,
    {
        if i >= cs.len() {
            proof {
                assert(cs@.skip(i as int) =~= Seq::<char>::empty());
            }
            return None;
        }
        let c = cs[i];
        proof {
            assert(cs@.skip(i as int)[0] == cs@[i as int]);
            assert(cs@.skip(i as int).drop_first() =~= cs@.skip(i as int + 1));
        }
        if c == '"' {
            proof {
                assert(unesc(cs@.skip(i as int)) == Some(
                    (Seq::<char>::empty(), cs@.skip(i as int + 1)),
                ));
                assert(field@ + Seq::<char>::empty() =~= field@);
            }
            return Some((field, i + 1));
        } else if c == '\\' {
            if i + 1 >= cs.len() {
                proof {
                    assert(cs@.skip(i as int).len() < 2);
                }
                return None;
            }
            let c2 = cs[i + 1];
            proof {
                assert(cs@.skip(i as int)[1] == cs@[i as int + 1]);
                assert(cs@.skip(i as int).skip(2) =~= cs@.skip(i as int + 2));
            }
            let d: char = if c2 == '"' {
                '"'
            } else if c2 == '\\' {
                '\\'
            } else if c2 == 'n' {
                '\n'
            } else {
                return None;
            };
            proof {
                lemma_unesc_cont_push(field@, d, unesc(cs@.skip(i as int + 2)));
            }
            field.push(d);
            i = i + 2;
        } else {
            proof {
                lemma_unesc_cont_push(field@, c, unesc(cs@.skip(i as int + 1)));
            }
            field.push(c);
            i = i + 1;
        }
    }
}

/// Does the record open with `{"from":"`?
fn match_lit_from(cs: &Vec<char>) -> (r: bool)
    ensures
        r <==> (cs@.len() >= 9 && cs@.take(9) == lit_from()),
{
    if cs.len() < 9 {
        return false;
    }
    let ok = cs[0] == '{' && cs[1] == '"' && cs[2] == 'f' && cs[3] == 'r' && cs[4] == 'o' && cs[5]
        == 'm' && cs[6] == '"' && cs[7] == ':' && cs[8] == '"';
    proof {
        let t = cs@.take(9);
        assert(t[0] == cs@[0] && t[1] == cs@[1] && t[2] == cs@[2] && t[3] == cs@[3] && t[4]
            == cs@[4] && t[5] == cs@[5] && t[6] == cs@[6] && t[7] == cs@[7] && t[8] == cs@[8]);
        if ok {
            assert(t =~= lit_from());
        }
    }
    ok
}

/// Does `,"to":"` stand at position `at`?
fn match_lit_to(cs: &Vec<char>, at: usize) -> (r: bool)
    requires
        at <= cs@.len(),
    ensures
        r <==> (cs@.len() >= at + 7 && cs@.skip(at as int).take(7) == lit_to()),
{
    if cs.len() - at < 7 {
        return false;
    }
    let ok = cs[at] == ',' && cs[at + 1] == '"' && cs[at + 2] == 't' && cs[at + 3] == 'o' && cs[at
        + 4] == '"' && cs[at + 5] == ':' && cs[at + 6] == '"';
    proof {
        let t = cs@.skip(at as int).take(7);
        assert(t[0] == cs@[at as int] && t[1] == cs@[at as int + 1] && t[2] == cs@[at as int + 2]
            && t[3] == cs@[at as int + 3] && t[4] == cs@[at as int + 4] && t[5] == cs@[at as int
            + 5] && t[6] == cs@[at as int + 6]);
        if ok {
            assert(t =~= lit_to());
        }
    }
    ok
}

/// Does `,"value":` stand at position `at`?
fn match_lit_value(cs: &Vec<char>, at: usize) -> (r: bool)
    requires
        at <= cs@.len(),
    ensures
        r <==> (cs@.len() >= at + 9 && cs@.skip(at as int).take(9) == lit_value()),
{
    if cs.len() - at < 9 {
        return false;
    }
    let ok = cs[at] == ',' && cs[at + 1] == '"' && cs[at + 2] == 'v' && cs[at + 3] == 'a' && cs[at
        + 4] == 'l' && cs[at + 5] == 'u' && cs[at + 6] == 'e' && cs[at + 7] == '"' && cs[at + 8]
        == ':';
    proof {
        let t = cs@.skip(at as int).take(9);
        assert(t[0] == cs@[at as int] && t[1] == cs@[at as int + 1] && t[2] == cs@[at as int + 2]
            && t[3] == cs@[at as int + 3] && t[4] == cs@[at as int + 4] && t[5] == cs@[at as int
            + 5] && t[6] == cs@[at as int + 6] && t[7] == cs@[at as int + 7] && t[8] == cs@[at
            as int + 8]);
        if ok {
            assert(t =~= lit_value());
        }
    }
    ok
}

/// Reads a one-line log record back into a transaction; `None` on any
/// line that `encode_tx` could not have produced.
pub fn decode_tx(line: &str) -> (r: Option<Transaction>)
    ensures
        r is Some <==> spec_decode(line@) is Some,
        r matches Some(t) ==> spec_decode(line@) == Some(t@),
{
    let cs = str_chars(line);
    if !match_lit_from(&cs) {
        return None;
    }
    let (from_field, i1) = match scan_field(&cs, 9) {
        Some(p) => p,
        None => {
            return None;
        },
    };
    let ghost r1 = line@.skip(i1 as int);
    if !match_lit_to(&cs, i1) {
        proof {
            assert(r1.len() < 7 || r1.take(7) != lit_to());
        }
        return None;
    }
    proof {
        assert(r1.skip(7) =~= line@.skip(i1 as int + 7));
    }
    let (to_field, i2) = match scan_field(&cs, i1 + 7) {
        Some(p) => p,
        None => {
            return None;
        },
    };
    let ghost r2 = line@.skip(i2 as int);
    if !match_lit_value(&cs, i2) {
        proof {
            assert(r2.len() < 9 || r2.take(9) != lit_value());
        }
        return None;
    }
    let vstart = i2 + 9;
    let ghost r3 = line@.skip(vstart as int);
    proof {
        assert(r2.skip(9) =~= r3);
        assert(r3.len() == line@.len() - vstart);
    }
    if cs.len() - vstart < 2 {
        return None;
    }
    let last = cs[cs.len() - 1];
    proof {
        assert(r3.last() == line@[line@.len() - 1]);
    }
    if last != '}' {
        return None;
    }
    let end = cs.len() - 1;
    let ghost ds = line@.subrange(vstart as int, end as int);
    proof {
        assert(r3.drop_last() =~= ds);
        assert(ds.len() >= 1);
    }
    if end - vstart > 1 && cs[vstart] == '0' {
        proof {
            assert(ds[0] == line@[vstart as int]);
        }
        return None;
    }
    proof {
        assert(spec_parse_u64(ds) is None ==> spec_decode(line@) is None);
        assert(spec_parse_u64(ds) matches Some(v) ==> spec_decode(line@) == Some(
            TxView { from: from_field@, to: to_field@, value: v },
        ));
    }
    let mut acc: u64 = 0;
    let mut j = vstart;
    while j < end
        invariant
            vstart <= j <= end,
            end == cs@.len() - 1,
            vstart + ds.len() == end,
            cs@ == line@,
            ds == line@.subrange(vstart as int, end as int),
            spec_digits_val(ds.take(j - vstart)) == Some(acc as nat),
            spec_parse_u64(ds) is None ==> spec_decode(line@) is None,
            spec_parse_u64(ds) matches Some(v) ==> spec_decode(line@) == Some(
                TxView { from: from_field@, to: to_field@, value: v },
            ),
        decreases end - j,
    {
        proof {
            assert(ds[j - vstart] == line@[j as int]);
        }
        let d = match char_to_digit(cs[j]) {
            Some(d) => d,
            None => {
                proof {
                    if spec_digits_val(ds) is Some {
                        lemma_digits_val_char(ds, j - vstart);
                    }
                }
                return None;
            },
        };
        proof {
            assert(ds.take(j - vstart + 1).drop_last() =~= ds.take(j - vstart));
            assert(ds.take(j - vstart + 1).last() == ds[j - vstart]);
            assert(spec_digits_val(ds.take(j - vstart + 1)) == Some(
                (acc as nat) * 10 + (d as nat),
            ));
        }
        if acc > (u64::MAX - d) / 10 {
            proof {
                let m = u64::MAX as int;
                vstd::arithmetic::div_mod::lemma_fundamental_div_mod(m - d, 10);
                vstd::arithmetic::div_mod::lemma_mod_bound(m - d, 10);
                assert((acc as int) * 10 + d > m) by (nonlinear_arith)
                    requires
                        acc as int >= (m - d) / 10 + 1,
                        m - d == 10 * ((m - d) / 10) + (m - d) % 10,
                        0 <= (m - d) % 10 < 10,
                        0 <= d < 10,
                ;
                if spec_digits_val(ds) is Some {
                    lemma_digits_val_prefix(ds, j - vstart + 1);
                }
            }
            return None;
        }
        proof {
            let m = u64::MAX as int;
            vstd::arithmetic::div_mod::lemma_fundamental_div_mod(m - d, 10);
            vstd::arithmetic::div_mod::lemma_mod_bound(m - d, 10);
            assert((acc as int) * 10 + d <= m) by (nonlinear_arith)
                requires
                    acc as int <= (m - d) / 10,
                    m - d == 10 * ((m - d) / 10) + (m - d) % 10,
                    0 <= (m - d) % 10 < 10,
                    0 <= d < 10,
            ;
        }
        acc = acc * 10 + d;
        j = j + 1;
    }
    proof {
        assert(ds.take(ds.len() as int) =~= ds);
        assert(spec_digits_val(ds) == Some(acc as nat));
        assert(spec_parse_u64(ds) == Some(acc));
    }
    let from_s = chars_to_string(&from_field);
    let to_s = chars_to_string(&to_field);
    Some(Transaction::new(from_s, to_s, acc))
}

// ---------------------------------------------------------------------------
// The round trip
// ---------------------------------------------------------------------------

/// Decoding undoes encoding: every transaction read back from its own
/// log record is the transaction that was written, whatever its
/// addresses and value.
pub proof fn lemma_decode_encode(t: TxView)
    ensures
        spec_decode(spec_encode(t)) == Some(t),
{
    let s = spec_encode(t);
    let rest_a = lit_to() + esc(t.to) + seq!['"'] + lit_value() + spec_dec(t.value as nat)
        + seq!['}'];
    assert(s.take(9) =~= lit_from());
    assert(s.skip(9) =~= esc(t.from) + seq!['"'] + rest_a);
    lemma_unesc_esc(t.from, rest_a);
    let rest_b = lit_value() + spec_dec(t.value as nat) + seq!['}'];
    assert(rest_a.take(7) =~= lit_to());
    assert(rest_a.skip(7) =~= esc(t.to) + seq!['"'] + rest_b);
    lemma_unesc_esc(t.to, rest_b);
    assert(rest_b.take(9) =~= lit_value());
    let r3 = spec_dec(t.value as nat) + seq!['}'];
    assert(rest_b.skip(9) =~= r3);
    lemma_dec_digits(t.value as nat);
    assert(r3.last() == '}');
    assert(r3.drop_last() =~= spec_dec(t.value as nat));
    assert(spec_parse_u64(spec_dec(t.value as nat)) == Some(t.value));
    assert(spec_decode(s) == Some(TxView { from: t.from, to: t.to, value: t.value }));
    assert(TxView { from: t.from, to: t.to, value: t.value } =~= t);
}

} // verus!
