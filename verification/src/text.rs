//! Byte-level text helpers: decimal number rendering and parsing.

use vstd::prelude::*;
use vstd::string::StringSliceAdditionalSpecFns;

verus! {

/// Decimal digits of `n`, most significant first.
pub open spec fn spec_dec(n: nat) -> Seq<u8>
    decreases n,
{
    if n < 10 {
        seq![(48 + n) as u8]
    } else {
        spec_dec(n / 10) + seq![(48 + n % 10) as u8]
    }
}

pub open spec fn is_digit(b: u8) -> bool {
    48 <= b <= 57
}

pub open spec fn all_digits(s: Seq<u8>) -> bool {
    forall|i: int| 0 <= i < s.len() ==> is_digit(#[trigger] s[i])
}

/// Value of a digit string, read left to right.
pub open spec fn spec_val(s: Seq<u8>) -> int
    decreases s.len(),
{
    if s.len() == 0 {
        0
    } else {
        spec_val(s.drop_last()) * 10 + (s.last() - 48)
    }
}

pub proof fn lemma_dec_digits(n: nat)
    ensures
        spec_dec(n).len() >= 1,
        all_digits(spec_dec(n)),
    decreases n,
{
    if n >= 10 {
        lemma_dec_digits(n / 10);
        assert forall|i: int| 0 <= i < spec_dec(n).len() implies is_digit(#[trigger] spec_dec(n)[i]) by {
            if i < spec_dec(n / 10).len() {
                assert(spec_dec(n)[i] == spec_dec(n / 10)[i]);
            }
        }
    }
}

/// Rendering a number and reading the digits back yields the number.
pub proof fn lemma_val_dec(n: nat)
    ensures
        spec_val(spec_dec(n)) == n,
    decreases n,
{
    if n < 10 {
        assert(spec_dec(n) =~= seq![(48 + n) as u8]);
        assert(spec_dec(n).drop_last() =~= Seq::<u8>::empty());
        assert(spec_val(Seq::<u8>::empty()) == 0);
        assert(spec_dec(n).last() == (48 + n) as u8);
        assert((48 + n) as u8 == 48 + n);
        assert(spec_val(spec_dec(n)) == 0 * 10 + ((48 + n) - 48));
    } else {
        lemma_val_dec(n / 10);
        assert(spec_dec(n).drop_last() =~= spec_dec(n / 10));
        assert(spec_dec(n).last() == (48 + n % 10) as u8);
        assert((48 + n % 10) as u8 == 48 + n % 10);
        assert(spec_val(spec_dec(n)) == (n / 10) * 10 + n % 10);
        assert((n / 10) * 10 + n % 10 == n);
    }
}

/// Renders `n` in decimal.
pub fn dec_u16(n: u16) -> (out: Vec<u8>)
    ensures
        out@ == spec_dec(n as nat),
{
    let mut digits: Vec<u8> = Vec::new();
    let mut m: u16 = n;
    loop
        invariant
            spec_dec(n as nat) == spec_dec(m as nat) + digits@,
        decreases m,
    {
        let d: u8 = (m % 10) as u8;
        let next: u16 = m / 10;
        proof {
            if m >= 10 {
                assert(spec_dec(m as nat) == spec_dec(m as nat / 10) + seq![(48 + m as nat % 10) as u8]);
                assert(spec_dec(m as nat / 10) + (seq![(48 + m as nat % 10) as u8] + digits@)
                    =~= (spec_dec(m as nat / 10) + seq![(48 + m as nat % 10) as u8]) + digits@);
            }
        }
        let mut tail: Vec<u8> = Vec::new();
        tail.push(48 + d);
        tail.append(&mut digits);
        digits = tail;
        if next == 0 && m < 10 {
            proof {
                assert(spec_dec(m as nat) =~= seq![(48 + m as nat) as u8]);
                assert(spec_dec(m as nat) + digits@.skip(1) =~= digits@);
            }
            return digits;
        }
        m = next;
    }
}

} // verus!

verus! {

/// Meaning of an unsigned decimal token: a nonempty all-digit string
/// whose value fits in `u16`.
pub open spec fn spec_parse_u16(s: Seq<u8>) -> Option<u16> {
    if s.len() >= 1 && all_digits(s) && spec_val(s) <= 65535 {
        Some(spec_val(s) as u16)
    } else {
        None
    }
}

pub proof fn lemma_val_nonneg(s: Seq<u8>)
    requires
        all_digits(s),
    ensures
        spec_val(s) >= 0,
    decreases s.len(),
{
    if s.len() > 0 {
        assert(all_digits(s.drop_last())) by {
            assert(forall|i: int| 0 <= i < s.len() - 1 ==> s.drop_last()[i] == s[i]);
        }
        lemma_val_nonneg(s.drop_last());
    }
}

/// A digit string's value only grows as more digits follow.
pub proof fn lemma_val_prefix_grows(s: Seq<u8>, i: int)
    requires
        all_digits(s),
        0 <= i <= s.len(),
    ensures
        spec_val(s) >= spec_val(s.take(i)),
    decreases s.len() - i,
{
    if i < s.len() {
        lemma_val_prefix_grows(s, i + 1);
        assert(s.take(i + 1).drop_last() =~= s.take(i));
        assert(s.take(i + 1).last() == s[i]);
        assert(all_digits(s.take(i))) by {
            assert(forall|j: int| 0 <= j < i ==> s.take(i)[j] == s[j]);
        }
        lemma_val_nonneg(s.take(i));
        assert(spec_val(s.take(i + 1)) == spec_val(s.take(i)) * 10 + (s[i] - 48));
    } else {
        assert(s.take(i) =~= s);
    }
}

/// Reads an unsigned decimal number.
pub fn parse_u16(s: &[u8]) -> (r: Option<u16>)
    ensures
        r == spec_parse_u16(s@),
{
    let n = s.len();
    if n == 0 {
        return None;
    }
    let mut acc: u32 = 0;
    let mut i: usize = 0;
    while i < n
        invariant
            0 <= i <= n,
            n == s@.len(),
            all_digits(s@.take(i as int)),
            acc == spec_val(s@.take(i as int)),
            acc <= 65535,
        decreases n - i,
    {
        let b = s[i];
        if b < 48 || b > 57 {
            assert(!all_digits(s@));
            return None;
        }
        proof {
            assert(s@.take(i + 1).drop_last() =~= s@.take(i as int));
            assert(s@.take(i + 1).last() == s@[i as int]);
        }
        acc = acc * 10 + (b - 48) as u32;
        i = i + 1;
        if acc > 65535 {
            proof {
                if all_digits(s@) {
                    lemma_val_prefix_grows(s@, i as int);
                    assert(s@.take(n as int) =~= s@);
                    assert(spec_val(s@) > 65535);
                }
            }
            return None;
        }
    }
    proof {
        assert(s@.take(n as int) =~= s@);
        lemma_val_nonneg(s@);
    }
    Some(acc as u16)
}

pub open spec fn spec_parse_u8(s: Seq<u8>) -> Option<u8> {
    if s.len() >= 1 && all_digits(s) && spec_val(s) <= 255 {
        Some(spec_val(s) as u8)
    } else {
        None
    }
}

/// Reads an unsigned decimal number that must fit in a byte.
pub fn parse_u8(s: &[u8]) -> (r: Option<u8>)
    ensures
        r == spec_parse_u8(s@),
{
    match parse_u16(s) {
        Some(v) => {
            proof {
                lemma_val_nonneg(s@);
            }
            if v <= 255 {
                Some(v as u8)
            } else {
                None
            }
        },
        None => {
            proof {
                if s@.len() >= 1 && all_digits(s@) {
                    lemma_val_nonneg(s@);
                }
            }
            None
        },
    }
}

} // verus!

verus! {

/// Meaning of a signed decimal token, as `str::parse::<i16>` reads it:
/// an optional sign, then at least one digit, with a range check.
pub open spec fn spec_parse_i16(s: Seq<u8>) -> Option<i16> {
    if s.len() == 0 {
        None
    } else {
        let neg = s[0] == 45;
        let body = if s[0] == 45 || s[0] == 43 {
            s.skip(1)
        } else {
            s
        };
        if body.len() >= 1 && all_digits(body) {
            let v = spec_val(body);
            if neg {
                if v <= 32768 {
                    Some((-v) as i16)
                } else {
                    None
                }
            } else {
                if v <= 32767 {
                    Some(v as i16)
                } else {
                    None
                }
            }
        } else {
            None
        }
    }
}

/// Decimal text of a signed number: a minus sign before the magnitude.
pub open spec fn spec_dec_i16(x: i16) -> Seq<u8> {
    if x < 0 {
        seq![45u8] + spec_dec((-(x as int)) as nat)
    } else {
        spec_dec(x as nat)
    }
}

/// Reads a signed decimal number.
#[verifier::loop_isolation(false)]
pub fn parse_i16(s: &[u8]) -> (r: Option<i16>)
    ensures
        r == spec_parse_i16(s@),
{
    let n = s.len();
    if n == 0 {
        return None;
    }
    let first = s[0];
    let neg = first == 45;
    let start: usize = if first == 45 || first == 43 {
        1
    } else {
        0
    };
    let ghost body = if s@[0] == 45 || s@[0] == 43 { s@.skip(1) } else { s@ };
    proof {
        assert(body =~= s@.subrange(start as int, n as int));
    }
    if start >= n {
        return None;
    }
    let mut acc: u32 = 0;
    let mut i: usize = start;
    while i < n
        invariant
            start <= i <= n,
            n == s@.len(),
            body == s@.subrange(start as int, n as int),
            all_digits(body.take(i - start)),
            acc == spec_val(body.take(i - start)),
            acc <= 32768,
        decreases n - i,
    {
        let b = s[i];
        if b < 48 || b > 57 {
            assert(body[i - start] == s@[i as int]);
            assert(!all_digits(body));
            return None;
        }
        proof {
            assert(body.take(i - start + 1).drop_last() =~= body.take(i - start));
            assert(body.take(i - start + 1).last() == body[i - start] == s@[i as int]);
        }
        acc = acc * 10 + (b - 48) as u32;
        i = i + 1;
        if acc > 32768 {
            proof {
                if all_digits(body) {
                    lemma_val_prefix_grows(body, i - start);
                    assert(body.take(n - start) =~= body);
                }
            }
            return None;
        }
    }
    proof {
        assert(body.take(n - start) =~= body);
        lemma_val_nonneg(body);
    }
    if neg {
        let v: i32 = -(acc as i32);
        Some(v as i16)
    } else {
        if acc > 32767 {
            return None;
        }
        Some(acc as i16)
    }
}

/// Renders a signed number in decimal.
pub fn dec_i16(x: i16) -> (out: Vec<u8>)
    ensures
        out@ == spec_dec_i16(x),
{
    if x < 0 {
        let mag: u16 = if x == i16::MIN {
            32768
        } else {
            (-x) as u16
        };
        let mut out: Vec<u8> = Vec::new();
        out.push(45);
        let mut digits = dec_u16(mag);
        out.append(&mut digits);
        proof {
            assert(out@ =~= seq![45u8] + spec_dec((-(x as int)) as nat));
        }
        out
    } else {
        dec_u16(x as u16)
    }
}

/// Rendering a signed number and parsing the text yields the number.
pub proof fn lemma_parse_dec_i16(x: i16)
    ensures
        spec_parse_i16(spec_dec_i16(x)) == Some(x),
{
    if x < 0 {
        let mag = (-(x as int)) as nat;
        lemma_dec_digits(mag);
        lemma_val_dec(mag);
        let s = spec_dec_i16(x);
        assert(s[0] == 45);
        assert(s.skip(1) =~= spec_dec(mag));
        assert(spec_val(s.skip(1)) == mag <= 32768);
        assert((-(mag as int)) as i16 == x);
    } else {
        let m = x as nat;
        lemma_dec_digits(m);
        lemma_val_dec(m);
        let s = spec_dec_i16(x);
        assert(is_digit(s[0]));
        assert(s[0] != 45 && s[0] != 43);
        assert(spec_val(s) == m <= 32767);
    }
}

/// Rendering an unsigned number and parsing the digits yields the number.
pub proof fn lemma_parse_dec_u16(n: u16)
    ensures
        spec_parse_u16(spec_dec(n as nat)) == Some(n),
{
    lemma_dec_digits(n as nat);
    lemma_val_dec(n as nat);
}

pub proof fn lemma_parse_dec_u8(n: u8)
    ensures
        spec_parse_u8(spec_dec(n as nat)) == Some(n),
{
    lemma_dec_digits(n as nat);
    lemma_val_dec(n as nat);
}

} // verus!

verus! {

pub open spec fn is_ws(b: u8) -> bool {
    b == 32 || b == 9 || b == 10 || b == 13
}

pub open spec fn spec_trim_front(s: Seq<u8>) -> Seq<u8>
    decreases s.len(),
{
    if s.len() > 0 && is_ws(s[0]) {
        spec_trim_front(s.skip(1))
    } else {
        s
    }
}

pub open spec fn spec_trim_back(s: Seq<u8>) -> Seq<u8>
    decreases s.len(),
{
    if s.len() > 0 && is_ws(s.last()) {
        spec_trim_back(s.drop_last())
    } else {
        s
    }
}

/// The string without its leading and trailing whitespace.
pub open spec fn spec_trim(s: Seq<u8>) -> Seq<u8> {
    spec_trim_back(spec_trim_front(s))
}

/// Strips whitespace from both ends.
#[verifier::loop_isolation(false)]
pub fn trim(s: &[u8]) -> (out: Vec<u8>)
    ensures
        out@ == spec_trim(s@),
{
    let n = s.len();
    proof {
        assert(s@.skip(0) =~= s@);
    }
    let mut lo: usize = 0;
    while lo < n && (s[lo] == 32 || s[lo] == 9 || s[lo] == 10 || s[lo] == 13)
        invariant
            0 <= lo <= n,
            spec_trim_front(s@.skip(lo as int)) == spec_trim_front(s@),
        decreases n - lo,
    {
        proof {
            assert(s@.skip(lo as int).skip(1) =~= s@.skip(lo + 1));
        }
        lo = lo + 1;
    }
    let ghost front = s@.skip(lo as int);
    proof {
        if lo < n {
            assert(front[0] == s@[lo as int]);
        }
        assert(spec_trim_front(s@) == front);
    }
    let mut hi: usize = n;
    proof {
        assert(front.take(n - lo) =~= front);
    }
    while hi > lo && (s[hi - 1] == 32 || s[hi - 1] == 9 || s[hi - 1] == 10 || s[hi - 1] == 13)
        invariant
            lo <= hi <= n,
            spec_trim_back(front.take(hi - lo)) == spec_trim_back(front),
        decreases hi,
    {
        proof {
            assert(front.take(hi - lo).last() == s@[hi - 1]);
            assert(front.take(hi - lo).drop_last() =~= front.take(hi - 1 - lo));
        }
        hi = hi - 1;
    }
    proof {
        if hi > lo {
            assert(front.take(hi - lo).last() == s@[hi - 1]);
        }
        assert(spec_trim_back(front) == front.take(hi - lo));
    }
    let mut out: Vec<u8> = Vec::new();
    let mut i: usize = lo;
    while i < hi
        invariant
            lo <= i <= hi <= n,
            out@ =~= s@.subrange(lo as int, i as int),
        decreases hi - i,
    {
        out.push(s[i]);
        i = i + 1;
    }
    proof {
        assert(out@ =~= front.take(hi - lo));
    }
    out
}

/// The pieces of `s` between occurrences of `sep`, in order; an empty
/// string yields one empty piece, as `str::split` does.
pub open spec fn spec_split(s: Seq<u8>, sep: u8) -> Seq<Seq<u8>>
    decreases s.len(),
{
    if s.len() == 0 {
        seq![Seq::<u8>::empty()]
    } else if s[0] == sep {
        seq![Seq::<u8>::empty()] + spec_split(s.skip(1), sep)
    } else {
        let r = spec_split(s.skip(1), sep);
        seq![seq![s[0]] + r[0]] + r.skip(1)
    }
}

pub proof fn lemma_split_len(s: Seq<u8>, sep: u8)
    ensures
        spec_split(s, sep).len() >= 1,
    decreases s.len(),
{
    if s.len() > 0 && s[0] != sep {
        lemma_split_len(s.skip(1), sep);
    }
}

/// Splits on a separator byte.
#[verifier::loop_isolation(false)]
pub fn split_bytes(s: &[u8], sep: u8) -> (out: Vec<Vec<u8>>)
    ensures
        out.deep_view() == spec_split(s@, sep),
        out.len() >= 1,
{
    let n = s.len();
    let mut done: Vec<Vec<u8>> = Vec::new();
    let mut cur: Vec<u8> = Vec::new();
    let mut i: usize = 0;
    proof {
        lemma_split_len(s@, sep);
        assert(s@.skip(0) =~= s@);
        assert(done.deep_view() =~= Seq::<Seq<u8>>::empty());
        assert(spec_split(s@, sep) =~~= done.deep_view()
            + seq![cur@ + spec_split(s@.skip(0), sep)[0]]
            + spec_split(s@.skip(0), sep).skip(1));
    }
    while i < n
        invariant
            0 <= i <= n,
            spec_split(s@, sep) =~~= done.deep_view()
                + seq![cur@ + spec_split(s@.skip(i as int), sep)[0]]
                + spec_split(s@.skip(i as int), sep).skip(1),
        decreases n - i,
    {
        let ghost rest = s@.skip(i as int);
        let ghost rest2 = s@.skip(i + 1);
        proof {
            lemma_split_len(rest2, sep);
            assert(rest.skip(1) =~= rest2);
            assert(rest[0] == s@[i as int]);
        }
        let b = s[i];
        if b == sep {
            let finished = cur;
            cur = Vec::new();
            done.push(finished);
            proof {
                assert(done.deep_view().drop_last() =~= done.deep_view().subrange(0, done.deep_view().len() - 1));
                assert(spec_split(rest, sep) =~= seq![Seq::<u8>::empty()] + spec_split(rest2, sep));
                assert(spec_split(rest, sep)[0] =~= Seq::<u8>::empty());
                assert(spec_split(rest, sep).skip(1) =~= spec_split(rest2, sep));
                assert(spec_split(s@, sep) =~~= done.deep_view()
                    + seq![cur@ + spec_split(rest2, sep)[0]]
                    + spec_split(rest2, sep).skip(1));
            }
        } else {
            cur.push(b);
            proof {
                assert(spec_split(rest, sep) =~= seq![seq![rest[0]] + spec_split(rest2, sep)[0]] + spec_split(rest2, sep).skip(1));
                assert(cur@ + spec_split(rest2, sep)[0] =~= (cur@.drop_last() + (seq![rest[0]] + spec_split(rest2, sep)[0])));
                assert(spec_split(s@, sep) =~~= done.deep_view()
                    + seq![cur@ + spec_split(rest2, sep)[0]]
                    + spec_split(rest2, sep).skip(1));
            }
        }
        i = i + 1;
    }
    proof {
        assert(s@.skip(n as int) =~= Seq::<u8>::empty());
        assert(spec_split(s@.skip(n as int), sep) =~= seq![Seq::<u8>::empty()]);
    }
    done.push(cur);
    proof {
        assert(done.deep_view() =~~= spec_split(s@, sep));
    }
    done
}

} // verus!

verus! {

/// One step of whitespace splitting: the tokens of `s` when the
/// characters of `cur` have already been read into an open token.
pub open spec fn spec_tokens_go(s: Seq<u8>, cur: Seq<u8>) -> Seq<Seq<u8>>
    decreases s.len(),
{
    if s.len() == 0 {
        if cur.len() > 0 {
            seq![cur]
        } else {
            Seq::<Seq<u8>>::empty()
        }
    } else if is_ws(s[0]) {
        if cur.len() > 0 {
            seq![cur] + spec_tokens_go(s.skip(1), Seq::<u8>::empty())
        } else {
            spec_tokens_go(s.skip(1), Seq::<u8>::empty())
        }
    } else {
        spec_tokens_go(s.skip(1), cur + seq![s[0]])
    }
}

/// The maximal whitespace-free words of `s`, in order, as
/// `str::split_whitespace` yields them.
pub open spec fn spec_tokens(s: Seq<u8>) -> Seq<Seq<u8>> {
    spec_tokens_go(s, Seq::<u8>::empty())
}

/// Splits into whitespace-separated words.
#[verifier::loop_isolation(false)]
pub fn ws_tokens(s: &[u8]) -> (out: Vec<Vec<u8>>)
    ensures
        out.deep_view() == spec_tokens(s@),
{
    let n = s.len();
    let mut done: Vec<Vec<u8>> = Vec::new();
    let mut cur: Vec<u8> = Vec::new();
    let mut i: usize = 0;
    proof {
        assert(s@.skip(0) =~= s@);
        assert(done.deep_view() =~= Seq::<Seq<u8>>::empty());
    }
    while i < n
        invariant
            0 <= i <= n,
            spec_tokens(s@) =~~= done.deep_view() + spec_tokens_go(s@.skip(i as int), cur@),
        decreases n - i,
    {
        let ghost rest = s@.skip(i as int);
        proof {
            assert(rest.skip(1) =~= s@.skip(i + 1));
            assert(rest[0] == s@[i as int]);
        }
        let ghost dv0 = done.deep_view();
        let ghost cur0 = cur@;
        let b = s[i];
        if b == 32 || b == 9 || b == 10 || b == 13 {
            proof {
                assert(is_ws(rest[0]));
                if cur0.len() > 0 {
                    assert(spec_tokens_go(rest, cur0) =~~= seq![cur0]
                        + spec_tokens_go(s@.skip(i + 1), Seq::<u8>::empty()));
                } else {
                    assert(cur0 =~= Seq::<u8>::empty());
                    assert(spec_tokens_go(rest, cur0) =~~= spec_tokens_go(s@.skip(i + 1), Seq::<u8>::empty()));
                }
            }
            if cur.len() > 0 {
                let finished = cur;
                cur = Vec::new();
                done.push(finished);
                proof {
                    assert(done.deep_view() =~~= dv0.push(cur0));
                }
            }
            proof {
                assert(spec_tokens(s@) =~~= done.deep_view() + spec_tokens_go(s@.skip(i + 1), cur@));
            }
        } else {
            cur.push(b);
            proof {
                assert(!is_ws(rest[0]));
                assert(cur@ =~= cur0 + seq![rest[0]]);
                assert(spec_tokens_go(rest, cur0) =~~= spec_tokens_go(s@.skip(i + 1), cur@));
                assert(spec_tokens(s@) =~~= done.deep_view() + spec_tokens_go(s@.skip(i + 1), cur@));
            }
        }
        i = i + 1;
    }
    proof {
        assert(s@.skip(n as int) =~= Seq::<u8>::empty());
    }
    if cur.len() > 0 {
        done.push(cur);
    }
    proof {
        assert(done.deep_view() =~~= spec_tokens(s@));
    }
    done
}

pub open spec fn no_ws(s: Seq<u8>) -> bool {
    forall|i: int| 0 <= i < s.len() ==> !is_ws(#[trigger] s[i])
}

pub open spec fn no_byte(s: Seq<u8>, b: u8) -> bool {
    forall|i: int| 0 <= i < s.len() ==> s[i] != b
}

/// A whitespace-free prefix is read whole into the open token.
pub proof fn lemma_tokens_go_word(x: Seq<u8>, rest: Seq<u8>, cur: Seq<u8>)
    requires
        no_ws(x),
    ensures
        spec_tokens_go(x + rest, cur) == spec_tokens_go(rest, cur + x),
    decreases x.len(),
{
    if x.len() == 0 {
        assert(x + rest =~= rest);
        assert(cur + x =~= cur);
    } else {
        let s = x + rest;
        assert(s[0] == x[0]);
        assert(s.skip(1) =~= x.skip(1) + rest);
        assert(no_ws(x.skip(1)));
        lemma_tokens_go_word(x.skip(1), rest, cur + seq![x[0]]);
        assert((cur + seq![x[0]]) + x.skip(1) =~= cur + x);
    }
}

/// A whitespace byte closes the open token.
pub proof fn lemma_tokens_go_ws(rest: Seq<u8>, cur: Seq<u8>, b: u8)
    requires
        is_ws(b),
        cur.len() > 0,
    ensures
        spec_tokens_go(seq![b] + rest, cur) == seq![cur] + spec_tokens_go(rest, Seq::<u8>::empty()),
{
    let s = seq![b] + rest;
    assert(s[0] == b);
    assert(s.skip(1) =~= rest);
}

/// Splitting a separator-free string yields that one piece.
pub proof fn lemma_split_no_sep(x: Seq<u8>, sep: u8)
    requires
        no_byte(x, sep),
    ensures
        spec_split(x, sep) == seq![x],
    decreases x.len(),
{
    if x.len() == 0 {
        assert(spec_split(x, sep) =~~= seq![x]);
    } else {
        assert(no_byte(x.skip(1), sep));
        lemma_split_no_sep(x.skip(1), sep);
        let r = spec_split(x.skip(1), sep);
        assert(r == seq![x.skip(1)]);
        assert(r[0] == x.skip(1));
        assert(seq![x[0]] + r[0] =~= x);
        assert(r.skip(1) =~= Seq::<Seq<u8>>::empty());
        assert(spec_split(x, sep) =~~= seq![x]);
    }
}

/// Splitting `x ++ sep ++ y` peels off the separator-free `x`.
pub proof fn lemma_split_concat(x: Seq<u8>, y: Seq<u8>, sep: u8)
    requires
        no_byte(x, sep),
    ensures
        spec_split(x + seq![sep] + y, sep) == seq![x] + spec_split(y, sep),
    decreases x.len(),
{
    let s = x + seq![sep] + y;
    if x.len() == 0 {
        assert(s[0] == sep);
        assert(s.skip(1) =~= y);
        assert(spec_split(s, sep) =~~= seq![x] + spec_split(y, sep));
    } else {
        assert(s[0] == x[0]);
        assert(s[0] != sep);
        assert(no_byte(x.skip(1), sep));
        lemma_split_concat(x.skip(1), y, sep);
        assert(s.skip(1) =~= x.skip(1) + seq![sep] + y);
        lemma_split_len(y, sep);
        let r = spec_split(s.skip(1), sep);
        assert(r == seq![x.skip(1)] + spec_split(y, sep));
        assert(r[0] == x.skip(1));
        assert(seq![s[0]] + r[0] =~= x);
        assert(r.skip(1) =~= spec_split(y, sep));
        assert(spec_split(s, sep) =~~= seq![x] + spec_split(y, sep));
    }
}

/// Trimming strips single framing spaces from a word that neither
/// starts nor ends with whitespace.
pub proof fn lemma_trim_framed(x: Seq<u8>)
    requires
        x.len() >= 1,
        !is_ws(x[0]),
        !is_ws(x.last()),
    ensures
        spec_trim(seq![32u8] + x + seq![32u8]) == x,
        spec_trim(seq![32u8] + x) == x,
{
    let w = x + seq![32u8];
    let a = seq![32u8] + x + seq![32u8];
    assert(a[0] == 32 && is_ws(a[0]));
    assert(a.len() > 0);
    assert(spec_trim_front(a) == spec_trim_front(a.skip(1)));
    assert(a.skip(1) =~= w);
    assert(w[0] == x[0]);
    assert(!is_ws(w[0]));
    assert(spec_trim_front(w) == w);
    assert(spec_trim_front(a) == w);
    assert(w.last() == 32 && is_ws(w.last()));
    assert(spec_trim_back(w) == spec_trim_back(w.drop_last()));
    assert(w.drop_last() =~= x);
    assert(!is_ws(x.last()));
    assert(spec_trim_back(x) == x);
    assert(spec_trim(a) == x);
    let c = seq![32u8] + x;
    assert(c[0] == 32 && is_ws(c[0]));
    assert(spec_trim_front(c) == spec_trim_front(c.skip(1)));
    assert(c.skip(1) =~= x);
    assert(!is_ws(x[0]));
    assert(spec_trim_front(c) == x);
    assert(spec_trim(c) == x);
}

} // verus!

verus! {

/// Relies on `String::from_utf8`: bytes that are all ASCII form a
/// valid UTF-8 string whose characters are exactly those bytes.
#[verifier::external_body]
pub fn ascii_to_string(v: Vec<u8>) -> (s: String)
    requires
        forall|i: int| 0 <= i < v@.len() ==> v@[i] < 128,
    ensures
        s@ == v@.map_values(|b: u8| b as char),
{
    String::from_utf8(v).unwrap_or_default()
}

/// Every byte of a decimal rendering is a digit or a leading minus.
pub proof fn lemma_dec_i16_chars(x: i16)
    ensures
        spec_dec_i16(x).len() >= 1,
        forall|i: int|
            0 <= i < spec_dec_i16(x).len() ==> (is_digit(#[trigger] spec_dec_i16(x)[i])
                || spec_dec_i16(x)[i] == 45),
        is_digit(spec_dec_i16(x).last()),
        spec_dec_i16(x)[0] == 45 || is_digit(spec_dec_i16(x)[0]),
{
    if x < 0 {
        let mag = (-(x as int)) as nat;
        lemma_dec_digits(mag);
        let s = spec_dec_i16(x);
        assert(s.last() == spec_dec(mag).last());
        assert forall|i: int|
            0 <= i < s.len() implies (is_digit(#[trigger] s[i]) || s[i] == 45) by {
            if i > 0 {
                assert(s[i] == spec_dec(mag)[i - 1]);
            }
        }
    } else {
        lemma_dec_digits(x as nat);
    }
}

} // verus!
