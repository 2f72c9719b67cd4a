//! Byte-sequence utilities: lexicographic order, splitting, and decimal
//! numerals. Everything here works on plain byte sequences; log lines and
//! artifacts are treated as bytes throughout.
use vstd::prelude::*;

verus! {

// ---------------------------------------------------------------------------
// Lexicographic order on byte sequences
// ---------------------------------------------------------------------------

/// Strict lexicographic order on byte sequences: a proper prefix comes first,
/// otherwise the first differing byte decides.
pub open spec fn lex_lt(a: Seq<u8>, b: Seq<u8>) -> bool
    decreases a.len(),
{
    if b.len() == 0 {
        false
    } else if a.len() == 0 {
        true
    } else if a[0] < b[0] {
        true
    } else if a[0] > b[0] {
        false
    } else {
        lex_lt(a.drop_first(), b.drop_first())
    }
}

/// Exactly one of `lex_lt(a, b)`, `a == b`, `lex_lt(b, a)` holds.
pub proof fn lemma_lex_trichotomy(a: Seq<u8>, b: Seq<u8>)
    ensures
        lex_lt(a, b) || lex_lt(b, a) || a == b,
        lex_lt(a, b) ==> !lex_lt(b, a) && a != b,
        lex_lt(b, a) ==> !lex_lt(a, b) && b != a,
    decreases a.len(),
{
    if a.len() == 0 || b.len() == 0 {
        if a.len() == 0 && b.len() == 0 {
            assert(a =~= b);
        }
    } else {
        lemma_lex_trichotomy(a.drop_first(), b.drop_first());
        if a[0] == b[0] && a.drop_first() == b.drop_first() {
            assert(a =~= seq![a[0]] + a.drop_first());
            assert(b =~= seq![b[0]] + b.drop_first());
        }
    }
}

/// Lexicographic order is transitive.
pub proof fn lemma_lex_trans(a: Seq<u8>, b: Seq<u8>, c: Seq<u8>)
    requires
        lex_lt(a, b),
        lex_lt(b, c),
    ensures
        lex_lt(a, c),
    decreases a.len(),
{
    if a.len() != 0 && b.len() != 0 && c.len() != 0 {
        if a[0] == b[0] && b[0] == c[0] {
            lemma_lex_trans(a.drop_first(), b.drop_first(), c.drop_first());
        }
    }
}

/// Byte-for-byte equality of two byte vectors.
pub fn eq_bytes(a: &Vec<u8>, b: &Vec<u8>) -> (r: bool)
    ensures
        r == (a@ == b@),
{
    if a.len() != b.len() {
        proof {
            assert(a@ != b@);
        }
        return false;
    }
    let n: usize = a.len();
    let mut i: usize = 0;
    while i < n
        invariant
            0 <= i <= n,
            n == a@.len() == b@.len(),
            forall|j: int| 0 <= j < i ==> a@[j] == b@[j],
        decreases n - i,
    {
        if a[i] != b[i] {
            return false;
        }
        i += 1;
    }
    proof {
        assert(a@ =~= b@);
    }
    true
}

/// Decides `lex_lt(a@, b@)`.
pub fn lt_bytes(a: &Vec<u8>, b: &Vec<u8>) -> (r: bool)
    ensures
        r == lex_lt(a@, b@),
{
    let mut i: usize = 0;
    proof {
        assert(a@.skip(0) =~= a@);
        assert(b@.skip(0) =~= b@);
    }
    loop
        invariant
            0 <= i <= a@.len(),
            i <= b@.len(),
            forall|j: int| 0 <= j < i ==> a@[j] == b@[j],
            lex_lt(a@, b@) == lex_lt(a@.skip(i as int), b@.skip(i as int)),
        decreases a@.len() - i,
    {
        if i == a.len() {
            proof {
                assert(a@.skip(i as int).len() == 0);
            }
            return i < b.len();
        }
        if i == b.len() {
            proof {
                assert(b@.skip(i as int).len() == 0);
            }
            return false;
        }
        let x = a[i];
        let y = b[i];
        proof {
            assert(a@.skip(i as int)[0] == a@[i as int]);
            assert(b@.skip(i as int)[0] == b@[i as int]);
        }
        if x < y {
            return true;
        }
        if x > y {
            return false;
        }
        proof {
            assert(a@.skip(i as int).drop_first() =~= a@.skip(i + 1));
            assert(b@.skip(i as int).drop_first() =~= b@.skip(i + 1));
        }
        i += 1;
    }
}

// ---------------------------------------------------------------------------
// Splitting
// ---------------------------------------------------------------------------

/// Index of the first occurrence of `sep` in `s`, or `s.len()` if absent.
pub open spec fn find_idx(s: Seq<u8>, sep: u8) -> nat
    decreases s.len(),
{
    if s.len() == 0 {
        0
    } else if s[0] == sep {
        0
    } else {
        1 + find_idx(s.drop_first(), sep)
    }
}

/// `find_idx` is the first occurrence: bytes before it differ from `sep`.
pub proof fn lemma_find_idx(s: Seq<u8>, sep: u8, k: int)
    requires
        0 <= k <= s.len(),
        forall|j: int| 0 <= j < k ==> s[j] != sep,
        k < s.len() ==> s[k] == sep,
    ensures
        find_idx(s, sep) == k,
    decreases s.len(),
{
    if s.len() != 0 && s[0] != sep {
        lemma_find_idx(s.drop_first(), sep, k - 1);
    }
}

/// Split `s` on every occurrence of `sep`; adjacent separators yield empty
/// parts, and a lone empty input yields one empty part.
pub open spec fn split_on(s: Seq<u8>, sep: u8) -> Seq<Seq<u8>>
    decreases s.len(),
{
    let k = find_idx(s, sep);
    if k >= s.len() {
        seq![s]
    } else {
        seq![s.take(k as int)] + split_on(s.skip(k as int + 1), sep)
    }
}

/// Splits a byte slice on `sep`, part for part as `split_on` describes.
pub fn split_bytes(s: &[u8], sep: u8) -> (r: Vec<Vec<u8>>)
    ensures
        r.deep_view() == split_on(s@, sep),
{
    let n: usize = s.len();
    let mut r: Vec<Vec<u8>> = Vec::new();
    let mut start: usize = 0;
    let mut i: usize = 0;
    proof {
        assert(s@.skip(0) =~= s@);
        assert(r.deep_view() + split_on(s@, sep) =~~= split_on(s@, sep));
    }
    while i < n
        invariant
            0 <= start <= i <= n,
            n == s@.len(),
            forall|j: int| start <= j < i ==> s@[j] != sep,
            split_on(s@, sep) == r.deep_view() + split_on(s@.skip(start as int), sep),
        decreases n - i,
    {
        if s[i] == sep {
            let part = vstd::slice::slice_subrange(s, start, i);
            let ghost old_r = r.deep_view();
            r.push(vstd::slice::slice_to_vec(part));
            proof {
                let t = s@.skip(start as int);
                lemma_find_idx(t, sep, i - start);
                assert(t.take(i - start) =~= s@.subrange(start as int, i as int));
                assert(t.skip(i - start + 1) =~= s@.skip(i as int + 1));
                assert(split_on(t, sep) == seq![s@.subrange(start as int, i as int)]
                    + split_on(s@.skip(i as int + 1), sep));
                assert(r.deep_view() =~~= old_r + seq![s@.subrange(start as int, i as int)]);
            }
            start = i + 1;
        }
        i += 1;
    }
    let part = vstd::slice::slice_subrange(s, start, n);
    let ghost old_r = r.deep_view();
    r.push(vstd::slice::slice_to_vec(part));
    proof {
        let t = s@.skip(start as int);
        lemma_find_idx(t, sep, n - start);
        assert(t =~= s@.subrange(start as int, n as int));
        assert(split_on(t, sep) == seq![t]);
        assert(r.deep_view() =~~= old_r + seq![s@.subrange(start as int, n as int)]);
    }
    r
}

/// The parts of `q` that are non-empty, from position `i` on.
pub open spec fn nonempties(q: Seq<Seq<u8>>, i: int) -> Seq<Seq<u8>>
    decreases q.len() - i,
{
    if 0 <= i < q.len() {
        if q[i].len() > 0 {
            seq![q[i]] + nonempties(q, i + 1)
        } else {
            nonempties(q, i + 1)
        }
    } else {
        Seq::empty()
    }
}

/// Keeps the non-empty parts, in order.
pub fn keep_nonempty(q: Vec<Vec<u8>>) -> (r: Vec<Vec<u8>>)
    ensures
        r.deep_view() == nonempties(q.deep_view(), 0),
{
    let mut r: Vec<Vec<u8>> = Vec::new();
    let n: usize = q.len();
    let mut i: usize = 0;
    while i < n
        invariant
            0 <= i <= n,
            n == q.deep_view().len(),
            q.deep_view().len() == q@.len(),
            nonempties(q.deep_view(), 0) == r.deep_view() + nonempties(q.deep_view(), i as int),
        decreases n - i,
    {
        proof {
            assert(q.deep_view()[i as int] == q@[i as int].deep_view());
            assert(q@[i as int].deep_view() == q@[i as int]@);
        }
        if q[i].len() > 0 {
            let ghost old_r = r.deep_view();
            let part = &q[i];
            let mut copy: Vec<u8> = Vec::new();
            let m: usize = part.len();
            let mut j: usize = 0;
            while j < m
                invariant
                    0 <= j <= m,
                    m == part@.len(),
                    copy@ =~= part@.take(j as int),
                decreases m - j,
            {
                copy.push(part[j]);
                j += 1;
            }
            proof {
                assert(copy@ =~= part@);
            }
            r.push(copy);
            proof {
                assert(r.deep_view() =~= old_r + seq![q.deep_view()[i as int]]);
            }
        }
        i += 1;
    }
    r
}

// ---------------------------------------------------------------------------
// Decimal numerals
// ---------------------------------------------------------------------------

pub open spec fn is_digit(c: u8) -> bool {
    48 <= c <= 57
}

pub open spec fn all_digits(s: Seq<u8>) -> bool {
    forall|i: int| 0 <= i < s.len() ==> is_digit(#[trigger] s[i])
}

/// Value of a digit string, most significant digit first.
pub open spec fn dec_val(s: Seq<u8>) -> int
    decreases s.len(),
{
    if s.len() == 0 {
        0
    } else {
        dec_val(s.drop_last()) * 10 + (s.last() - 48)
    }
}

/// A byte string that denotes a `u64`: non-empty, all digits, in range.
pub open spec fn valid_u64(s: Seq<u8>) -> bool {
    s.len() > 0 && all_digits(s) && dec_val(s) <= u64::MAX
}

/// A digit string has a non-negative value.
pub proof fn lemma_dec_val_nonneg(s: Seq<u8>)
    requires
        all_digits(s),
    ensures
        dec_val(s) >= 0,
    decreases s.len(),
{
    if s.len() > 0 {
        lemma_dec_val_nonneg(s.drop_last());
    }
}

/// Digit-string values only grow as digits are appended.
pub proof fn lemma_dec_val_prefix(s: Seq<u8>, i: int)
    requires
        0 <= i <= s.len(),
        all_digits(s),
    ensures
        dec_val(s.take(i)) <= dec_val(s),
    decreases s.len() - i,
{
    if i < s.len() {
        lemma_dec_val_prefix(s, i + 1);
        assert(s.take(i + 1).drop_last() =~= s.take(i));
        assert(all_digits(s.take(i))) by {
            assert(forall|j: int| 0 <= j < i ==> s.take(i)[j] == s[j]);
        }
        lemma_dec_val_nonneg(s.take(i));
        assert(dec_val(s.take(i + 1)) == dec_val(s.take(i)) * 10 + (s[i] - 48));
    } else {
        assert(s.take(i) =~= s);
    }
}

/// Parses a decimal `u64`; returns the value exactly when `valid_u64` holds.
pub fn parse_u64(s: &[u8]) -> (r: Option<u64>)
    ensures
        match r {
            Some(v) => valid_u64(s@) && v == dec_val(s@),
            None => !valid_u64(s@),
        },
{
    let n: usize = s.len();
    if n == 0 {
        return None;
    }
    let mut acc: u64 = 0;
    let mut i: usize = 0;
    while i < n
        invariant
            0 <= i <= n,
            n == s@.len(),
            all_digits(s@.take(i as int)),
            acc == dec_val(s@.take(i as int)),
        decreases n - i,
    {
        let c = s[i];
        if c < 48 || c > 57 {
            proof {
                assert(!is_digit(s@[i as int]));
            }
            return None;
        }
        let d: u64 = (c - 48) as u64;
        proof {
            assert(s@.take(i + 1).drop_last() =~= s@.take(i as int));
            assert(dec_val(s@.take(i + 1)) == dec_val(s@.take(i as int)) * 10 + (s@[i as int]
                - 48));
        }
        let m = match acc.checked_mul(10) {
            Some(m) => m,
            None => {
                proof {
                    if valid_u64(s@) {
                        lemma_dec_val_prefix(s@, i + 1);
                    }
                }
                return None;
            },
        };
        let a = match m.checked_add(d) {
            Some(a) => a,
            None => {
                proof {
                    if valid_u64(s@) {
                        lemma_dec_val_prefix(s@, i + 1);
                    }
                }
                return None;
            },
        };
        acc = a;
        i += 1;
    }
    proof {
        assert(s@.take(n as int) =~= s@);
    }
    Some(acc)
}

/// Powers of ten.
pub open spec fn pow10(n: nat) -> int
    decreases n,
{
    if n == 0 {
        1
    } else {
        10 * pow10((n - 1) as nat)
    }
}

/// A digit string's value is below ten to its length.
pub proof fn lemma_dec_val_bound(s: Seq<u8>)
    requires
        all_digits(s),
    ensures
        0 <= dec_val(s) < pow10(s.len()),
    decreases s.len(),
{
    if s.len() > 0 {
        lemma_dec_val_bound(s.drop_last());
    }
}

/// A byte string that denotes a `u16`.
pub open spec fn valid_u16(s: Seq<u8>) -> bool {
    s.len() > 0 && all_digits(s) && dec_val(s) <= u16::MAX
}

/// Parses a decimal `u16`; returns the value exactly when `valid_u16` holds.
pub fn parse_u16(s: &[u8]) -> (r: Option<u16>)
    ensures
        match r {
            Some(v) => valid_u16(s@) && v == dec_val(s@),
            None => !valid_u16(s@),
        },
{
    match parse_u64(s) {
        Some(v) => if v <= 65535 {
            Some(v as u16)
        } else {
            None
        },
        None => None,
    }
}

/// Decimal numeral of `v`, most significant digit first, no leading zeros.
pub open spec fn dec_str(v: nat) -> Seq<u8>
    decreases v,
{
    if v < 10 {
        seq![(48 + v) as u8]
    } else {
        dec_str(v / 10) + seq![(48 + v % 10) as u8]
    }
}

/// Writes `v` in decimal onto the end of `out`.
pub fn push_dec(v: u64, out: &mut Vec<u8>)
    ensures
        final(out)@ == old(out)@ + dec_str(v as nat),
    decreases v,
{
    if v < 10 {
        out.push(48 + v as u8);
        proof {
            assert(out@ =~= old(out)@ + dec_str(v as nat));
        }
    } else {
        let q: u64 = v / 10;
        let rem: u64 = v % 10;
        push_dec(q, out);
        out.push(48 + rem as u8);
        proof {
            assert(out@ =~= old(out)@ + dec_str(v as nat));
        }
    }
}

/// Copy of a byte vector.
pub fn copy_bytes(a: &Vec<u8>) -> (r: Vec<u8>)
    ensures
        r@ == a@,
{
    let n: usize = a.len();
    let mut r: Vec<u8> = Vec::new();
    let mut i: usize = 0;
    while i < n
        invariant
            0 <= i <= n,
            n == a@.len(),
            r@ =~= a@.take(i as int),
        decreases n - i,
    {
        r.push(a[i]);
        i += 1;
    }
    proof {
        assert(r@ =~= a@);
    }
    r
}

/// Appends all of `s` onto the end of `out`.
pub fn push_all(out: &mut Vec<u8>, s: &Vec<u8>)
    ensures
        final(out)@ == old(out)@ + s@,
{
    let n: usize = s.len();
    let mut i: usize = 0;
    while i < n
        invariant
            0 <= i <= n,
            n == s@.len(),
            out@ =~= old(out)@ + s@.take(i as int),
        decreases n - i,
    {
        out.push(s[i]);
        i += 1;
    }
    proof {
        assert(out@ =~= old(out)@ + s@);
    }
}

/// ASCII whitespace.
pub open spec fn is_ws(c: u8) -> bool {
    c == 32 || (9 <= c <= 13)
}

/// Whitespace bytes replaced by plain spaces; everything else kept.
pub open spec fn ws_norm(s: Seq<u8>) -> Seq<u8> {
    Seq::new(s.len(), |i: int| if is_ws(s[i]) { 32u8 } else { s[i] })
}

/// Whitespace-separated tokens of a line, in order, empties dropped.
pub open spec fn tokens_of(s: Seq<u8>) -> Seq<Seq<u8>> {
    nonempties(split_on(ws_norm(s), 32), 0)
}

/// Splits a line into its whitespace-separated tokens.
pub fn tokenize(s: &Vec<u8>) -> (r: Vec<Vec<u8>>)
    ensures
        r.deep_view() == tokens_of(s@),
{
    let n: usize = s.len();
    let mut norm: Vec<u8> = Vec::new();
    let mut i: usize = 0;
    while i < n
        invariant
            0 <= i <= n,
            n == s@.len(),
            norm@ =~= ws_norm(s@).take(i as int),
        decreases n - i,
    {
        let c = s[i];
        if c == 32 || (9 <= c && c <= 13) {
            norm.push(32);
        } else {
            norm.push(c);
        }
        proof {
            assert(norm@ =~= ws_norm(s@).take(i + 1));
        }
        i += 1;
    }
    proof {
        assert(norm@ =~= ws_norm(s@));
    }
    let parts = split_bytes(norm.as_slice(), 32);
    keep_nonempty(parts)
}

/// Non-empty path components between `/` separators.
pub open spec fn components_of(p: Seq<u8>) -> Seq<Seq<u8>> {
    nonempties(split_on(p, 47), 0)
}

/// Splits a path on `/` into its non-empty components.
pub fn split_path(p: &Vec<u8>) -> (r: Vec<Vec<u8>>)
    ensures
        r.deep_view() == components_of(p@),
{
    let parts = split_bytes(p.as_slice(), 47);
    keep_nonempty(parts)
}

/// Every part that `nonempties` keeps is non-empty.
pub proof fn lemma_nonempties_nonempty(q: Seq<Seq<u8>>, i: int)
    ensures
        forall|j: int|
            0 <= j < nonempties(q, i).len() ==> (#[trigger] nonempties(q, i)[j]).len() > 0,
    decreases q.len() - i,
{
    if 0 <= i < q.len() {
        lemma_nonempties_nonempty(q, i + 1);
        assert forall|j: int|
            0 <= j < nonempties(q, i).len() implies (#[trigger] nonempties(q, i)[j]).len()
            > 0 by {
            if q[i].len() > 0 {
                if j > 0 {
                    assert(nonempties(q, i)[j] == nonempties(q, i + 1)[j - 1]);
                }
            } else {
                assert(nonempties(q, i)[j] == nonempties(q, i + 1)[j]);
            }
        }
    }
}

/// A line with any trailing carriage return removed.
pub open spec fn strip_cr(l: Seq<u8>) -> Seq<u8> {
    if l.len() > 0 && l.last() == 13 {
        l.drop_last()
    } else {
        l
    }
}

/// The lines of a text: split on newlines, with the final empty piece after a
/// trailing newline dropped and trailing carriage returns stripped.
pub open spec fn lines_of(s: Seq<u8>) -> Seq<Seq<u8>> {
    if s.len() == 0 {
        Seq::empty()
    } else {
        let p = split_on(s, 10);
        let q = if s.last() == 10 {
            p.drop_last()
        } else {
            p
        };
        Seq::new(q.len(), |i: int| strip_cr(q[i]))
    }
}

/// `split_on` yields at least one part.
pub proof fn lemma_split_on_len(s: Seq<u8>, sep: u8)
    ensures
        split_on(s, sep).len() >= 1,
{
}

/// Splits a text into its lines.
pub fn split_lines(s: &[u8]) -> (r: Vec<Vec<u8>>)
    ensures
        r.deep_view() == lines_of(s@),
{
    let n: usize = s.len();
    if n == 0 {
        let r: Vec<Vec<u8>> = Vec::new();
        proof {
            assert(r.deep_view() =~= lines_of(s@));
        }
        return r;
    }
    let mut parts = split_bytes(s, 10);
    proof {
        lemma_split_on_len(s@, 10);
        assert(parts@.len() == parts.deep_view().len());
    }
    let ghost q = if s@.last() == 10 { split_on(s@, 10).drop_last() } else { split_on(s@, 10) };
    if s[n - 1] == 10 {
        parts.pop();
        proof {
            assert(parts.deep_view() =~= q);
        }
    }
    let m: usize = parts.len();
    proof {
        assert(parts.deep_view() =~= q);
        assert(m == q.len());
    }
    let mut r: Vec<Vec<u8>> = Vec::new();
    let mut i: usize = 0;
    while i < m
        invariant
            0 <= i <= m,
            m == parts@.len(),
            parts.deep_view() =~= q,
            r.deep_view().len() == i,
            forall|j: int| 0 <= j < i ==> r.deep_view()[j] == strip_cr(q[j]),
        decreases m - i,
    {
        let mut part = copy_bytes(&parts[i]);
        proof {
            assert(parts.deep_view()[i as int] == parts@[i as int]@);
        }
        if part.len() > 0 && part[part.len() - 1] == 13 {
            part.pop();
            proof {
                assert(part@ =~= strip_cr(q[i as int]));
            }
        } else {
            proof {
                assert(part@ =~= strip_cr(q[i as int]));
            }
        }
        let ghost prev = r.deep_view();
        r.push(part);
        proof {
            assert(r.deep_view() =~~= prev.push(part@));
        }
        i += 1;
    }
    proof {
        assert(r.deep_view() =~= lines_of(s@));
    }
    r
}

} // verus!
