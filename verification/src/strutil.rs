//! Lexicographic ordering on character sequences, and the executable
//! comparator on `&str` that realises it.

use vstd::prelude::*;

verus! {

/// Strict lexicographic order on character sequences, comparing scalar values
/// position by position; a proper prefix sorts before its extensions.
pub open spec fn str_lt(a: Seq<char>, b: Seq<char>) -> bool
    decreases a.len(),
{
    if b.len() == 0 {
        false
    } else if a.len() == 0 {
        true
    } else if a[0] < b[0] {
        true
    } else if a[0] > b[0] {
        false
    } else {
        str_lt(a.drop_first(), b.drop_first())
    }
}

/// Two sequences that neither precede nor follow one another are equal.
pub proof fn lemma_str_lt_connected(a: Seq<char>, b: Seq<char>)
    requires
        !str_lt(a, b),
        !str_lt(b, a),
    ensures
        a =~= b,
    decreases a.len(),
{
    if a.len() == 0 || b.len() == 0 {
    } else {
        if a[0] == b[0] {
            lemma_str_lt_connected(a.drop_first(), b.drop_first());
            assert(a =~= seq![a[0]] + a.drop_first());
            assert(b =~= seq![b[0]] + b.drop_first());
            assert(a[0] == b[0]);
        }
    }
}

/// The order is asymmetric: no two sequences precede each other.
pub proof fn lemma_str_lt_asymmetric(a: Seq<char>, b: Seq<char>)
    requires
        str_lt(a, b),
    ensures
        !str_lt(b, a),
    decreases a.len(),
{
    if a.len() != 0 && b.len() != 0 && a[0] == b[0] {
        lemma_str_lt_asymmetric(a.drop_first(), b.drop_first());
    }
}

/// The order is transitive.
pub proof fn lemma_str_lt_transitive(a: Seq<char>, b: Seq<char>, c: Seq<char>)
    requires
        str_lt(a, b),
        str_lt(b, c),
    ensures
        str_lt(a, c),
    decreases a.len(),
{
    if a.len() == 0 {
    } else if b.len() == 0 {
    } else if c.len() == 0 {
    } else {
        if a[0] == b[0] && b[0] == c[0] {
            lemma_str_lt_transitive(a.drop_first(), b.drop_first(), c.drop_first());
        }
    }
}

/// Executable three-way comparison of two strings under `str_lt`.
pub fn str_cmp(a: &str, b: &str) -> (r: core::cmp::Ordering)
    ensures
        r == core::cmp::Ordering::Less <==> str_lt(a@, b@),
        r == core::cmp::Ordering::Greater <==> str_lt(b@, a@),
        r == core::cmp::Ordering::Equal <==> a@ == b@,
{
    let a_len = a.unicode_len();
    let b_len = b.unicode_len();
    let mut i: usize = 0;
    proof {
        assert(a@.skip(0) =~= a@);
        assert(b@.skip(0) =~= b@);
    }
    loop
        invariant
            i <= a_len,
            i <= b_len,
            a_len == a@.len(),
            b_len == b@.len(),
            a@.subrange(0, i as int) =~= b@.subrange(0, i as int),
            str_lt(a@, b@) <==> str_lt(a@.skip(i as int), b@.skip(i as int)),
            str_lt(b@, a@) <==> str_lt(b@.skip(i as int), a@.skip(i as int)),
            (a@ == b@) <==> (a@.skip(i as int) =~= b@.skip(i as int)),
        decreases a_len - i,
    {
        if i == a_len && i == b_len {
            proof {
                lemma_str_lt_connected(a@, b@);
            }
            return core::cmp::Ordering::Equal;
        }
        if i == a_len {
            assert(str_lt(a@.skip(i as int), b@.skip(i as int)));
            proof {
                lemma_str_lt_asymmetric(a@, b@);
            }
            return core::cmp::Ordering::Less;
        }
        if i == b_len {
            assert(str_lt(b@.skip(i as int), a@.skip(i as int)));
            proof {
                lemma_str_lt_asymmetric(b@, a@);
            }
            return core::cmp::Ordering::Greater;
        }
        let ca = a.get_char(i);
        let cb = b.get_char(i);
        if ca < cb {
            assert(str_lt(a@.skip(i as int), b@.skip(i as int)));
            proof {
                lemma_str_lt_asymmetric(a@, b@);
            }
            return core::cmp::Ordering::Less;
        }
        if ca > cb {
            assert(str_lt(b@.skip(i as int), a@.skip(i as int)));
            proof {
                lemma_str_lt_asymmetric(b@, a@);
            }
            return core::cmp::Ordering::Greater;
        }
        proof {
            assert(a@.skip(i as int).drop_first() =~= a@.skip(i + 1));
            assert(b@.skip(i as int).drop_first() =~= b@.skip(i + 1));
            assert(a@.subrange(0, i + 1) =~= a@.subrange(0, i as int).push(a@[i as int]));
            assert(b@.subrange(0, i + 1) =~= b@.subrange(0, i as int).push(b@[i as int]));
            if a@.skip(i as int) =~= b@.skip(i as int) {
                assert(a@ =~= a@.subrange(0, i as int) + a@.skip(i as int));
                assert(b@ =~= b@.subrange(0, i as int) + b@.skip(i as int));
            }
            if a@.skip(i + 1) =~= b@.skip(i + 1) && a@.subrange(0, i + 1) =~= b@.subrange(
                0,
                i + 1,
            ) {
                assert(a@ =~= a@.subrange(0, i + 1) + a@.skip(i + 1));
                assert(b@ =~= b@.subrange(0, i + 1) + b@.skip(i + 1));
            }
        }
        i = i + 1;
    }
}

/// Executable equality of two strings, specified over their views.
pub fn str_eq(a: &str, b: &str) -> (r: bool)
    ensures
        r <==> a@ == b@,
{
    matches!(str_cmp(a, b), core::cmp::Ordering::Equal)
}

/// The pieces of `s` between occurrences of `sep`: always one piece more
/// than there are separators, each piece free of the separator.
pub open spec fn split_on(s: Seq<char>, sep: char) -> Seq<Seq<char>>
    decreases s.len(),
{
    if s.len() == 0 {
        seq![Seq::<char>::empty()]
    } else if s[0] == sep {
        seq![Seq::<char>::empty()] + split_on(s.drop_first(), sep)
    } else {
        let rest = split_on(s.drop_first(), sep);
        seq![seq![s[0]] + rest[0]] + rest.drop_first()
    }
}

/// A split always yields at least one piece.
pub proof fn lemma_split_nonempty(s: Seq<char>, sep: char)
    ensures
        split_on(s, sep).len() >= 1,
    decreases s.len(),
{
    if s.len() > 0 {
        lemma_split_nonempty(s.drop_first(), sep);
    }
}

/// The views of a sequence of strings, element by element.
pub open spec fn str_seq_view(s: Seq<String>) -> Seq<Seq<char>> {
    Seq::new(s.len(), |i: int| s[i]@)
}

/// Relies on `String::push`: appends one character to the string.
pub assume_specification[ String::push ](s: &mut String, ch: char)
    ensures
        final(s)@ == old(s)@.push(ch),
;

/// Splits a string at every occurrence of the separator.
#[verifier::loop_isolation(false)]
pub fn split_str(s: &str, sep: char) -> (r: Vec<String>)
    ensures
        str_seq_view(r@) == split_on(s@, sep),
{
    let n = s.unicode_len();
    let mut pieces: Vec<String> = Vec::new();
    let mut cur = String::new();
    let mut i: usize = 0;
    proof {
        assert(s@.skip(0) =~= s@);
        lemma_split_nonempty(s@, sep);
        assert(cur@ + split_on(s@, sep)[0] =~= split_on(s@, sep)[0]);
        assert(split_on(s@, sep) =~= str_seq_view(pieces@) + seq![
            cur@ + split_on(s@.skip(0), sep)[0]
        ] + split_on(s@.skip(0), sep).drop_first());
    }
    while i < n
        invariant
            i <= n,
            n == s@.len(),
            split_on(s@, sep) =~= str_seq_view(pieces@) + seq![
                cur@ + split_on(s@.skip(i as int), sep)[0]
            ] + split_on(s@.skip(i as int), sep).drop_first(),
        decreases n - i,
    {
        let c = s.get_char(i);
        let ghost old_pieces = pieces@;
        let ghost old_cur = cur@;
        let ghost rr = split_on(s@.skip(i + 1), sep);
        proof {
            lemma_split_nonempty(s@.skip(i as int), sep);
            lemma_split_nonempty(s@.skip(i + 1), sep);
            assert(s@.skip(i as int).drop_first() =~= s@.skip(i + 1));
            assert(s@.skip(i as int)[0] == s@[i as int]);
            assert(s@.skip(i as int).len() > 0);
        }
        if c == sep {
            proof {
                assert(split_on(s@.skip(i as int), sep) =~= seq![Seq::<char>::empty()] + rr);
                assert(split_on(s@.skip(i as int), sep)[0] =~= Seq::<char>::empty());
                assert(split_on(s@.skip(i as int), sep).drop_first() =~= rr);
            }
            pieces.push(cur);
            cur = String::new();
            proof {
                assert(str_seq_view(pieces@) =~= str_seq_view(old_pieces).push(old_cur));
                assert(old_cur + Seq::<char>::empty() =~= old_cur);
                assert(cur@ + rr[0] =~= rr[0]);
                assert(rr =~= seq![rr[0]] + rr.drop_first());
                assert(split_on(s@, sep) =~= str_seq_view(pieces@) + seq![cur@ + rr[0]]
                    + rr.drop_first());
            }
        } else {
            proof {
                assert(split_on(s@.skip(i as int), sep) =~= seq![seq![s@[i as int]] + rr[0]]
                    + rr.drop_first());
                assert(split_on(s@.skip(i as int), sep)[0] =~= seq![s@[i as int]] + rr[0]);
                assert(split_on(s@.skip(i as int), sep).drop_first() =~= rr.drop_first());
            }
            cur.push(c);
            proof {
                assert(cur@ =~= old_cur.push(c));
                assert(old_cur + (seq![s@[i as int]] + rr[0]) =~= cur@ + rr[0]);
                assert(split_on(s@, sep) =~= str_seq_view(pieces@) + seq![cur@ + rr[0]]
                    + rr.drop_first());
            }
        }
        i = i + 1;
    }
    proof {
        assert(s@.skip(n as int) =~= Seq::<char>::empty());
        assert(split_on(s@.skip(n as int), sep) =~= seq![Seq::<char>::empty()]);
        assert(cur@ + split_on(s@.skip(n as int), sep)[0] =~= cur@);
    }
    pieces.push(cur);
    proof {
        assert(str_seq_view(pieces@) =~= split_on(s@, sep));
    }
    pieces
}

/// A trailing carriage return stripped, as a line ending strips it.
pub open spec fn strip_cr(p: Seq<char>) -> Seq<char> {
    if p.len() > 0 && p.last() == '\r' {
        p.drop_last()
    } else {
        p
    }
}

/// The lines of a text: pieces between newlines, a final newline producing
/// no extra empty line, and a carriage return before each newline stripped.
pub open spec fn lines_of(s: Seq<char>) -> Seq<Seq<char>> {
    if s.len() == 0 {
        Seq::empty()
    } else {
        let ps = split_on(s, '\n');
        if ps.last().len() == 0 {
            ps.drop_last().map_values(|p: Seq<char>| strip_cr(p))
        } else {
            ps.drop_last().map_values(|p: Seq<char>| strip_cr(p)).push(ps.last())
        }
    }
}

/// Splits a text into its lines.
pub fn lines(s: &str) -> (r: Vec<String>)
    ensures
        str_seq_view(r@) == lines_of(s@),
{
    if s.unicode_len() == 0 {
        let r: Vec<String> = Vec::new();
        proof {
            assert(str_seq_view(r@) =~= lines_of(s@));
        }
        return r;
    }
    let mut ps = split_str(s, '\n');
    proof {
        lemma_split_nonempty(s@, '\n');
        assert(ps@.len() >= 1);
    }
    let last_empty = ps[ps.len() - 1].as_str().unicode_len() == 0;
    if last_empty {
        let _ = ps.pop();
    }
    let keep_last = !last_empty;
    let mut r: Vec<String> = Vec::new();
    let ghost target = lines_of(s@);
    let mut k: usize = 0;
    while k < ps.len()
        invariant
            k <= ps@.len(),
            target == lines_of(s@),
            ps@.len() as int == if keep_last {
                split_on(s@, '\n').len() as int
            } else {
                split_on(s@, '\n').len() as int - 1
            },
            forall|q: int| 0 <= q < ps@.len() ==> (#[trigger] ps@[q])@ == split_on(s@, '\n')[q],
            target.len() == ps@.len(),
            r@.len() == k,
            forall|q: int| 0 <= q < k ==> (#[trigger] r@[q])@ == target[q],
        decreases ps@.len() - k,
    {
        let piece = &ps[k];
        let plen = piece.as_str().unicode_len();
        let is_last_kept = keep_last && k == ps.len() - 1;
        if !is_last_kept && plen > 0 && piece.as_str().get_char(plen - 1) == '\r' {
            let stripped = piece.as_str().substring_char(0, plen - 1);
            r.push(String::from_str(stripped));
            proof {
                assert(stripped@ =~= strip_cr(piece@));
                assert(r@[k as int]@ == target[k as int]);
            }
        } else {
            r.push(piece.clone());
            proof {
                if is_last_kept {
                    assert(r@[k as int]@ == target[k as int]);
                } else {
                    assert(strip_cr(piece@) =~= piece@);
                    assert(r@[k as int]@ == target[k as int]);
                }
            }
        }
        k = k + 1;
    }
    proof {
        assert(str_seq_view(r@) =~= target);
    }
    r
}

/// Whether `c` is a decimal digit.
pub open spec fn is_digit(c: char) -> bool {
    '0' <= c && c <= '9'
}

/// The value of a decimal digit.
pub open spec fn digit_val(c: char) -> int {
    c as int - '0' as int
}

/// The value of a sequence of decimal digits, most significant first.
pub open spec fn digits_val(s: Seq<char>) -> int
    decreases s.len(),
{
    if s.len() == 0 {
        0
    } else {
        digits_val(s.drop_last()) * 10 + digit_val(s.last())
    }
}

/// A digit string's value is nonnegative.
pub proof fn lemma_digits_val_nonneg(s: Seq<char>)
    requires
        forall|i: int| 0 <= i < s.len() ==> is_digit(#[trigger] s[i]),
    ensures
        digits_val(s) >= 0,
    decreases s.len(),
{
    if s.len() > 0 {
        assert(forall|i: int|
            0 <= i < s.drop_last().len() ==> is_digit(#[trigger] s.drop_last()[i]));
        lemma_digits_val_nonneg(s.drop_last());
    }
}

/// Extending a digit string never shrinks its value.
pub proof fn lemma_digits_val_monotone(s: Seq<char>, k: int)
    requires
        forall|i: int| 0 <= i < s.len() ==> is_digit(#[trigger] s[i]),
        0 <= k <= s.len(),
    ensures
        digits_val(s.subrange(0, k)) <= digits_val(s),
    decreases s.len() - k,
{
    if k < s.len() {
        lemma_digits_val_monotone(s, k + 1);
        let p = s.subrange(0, k);
        let q = s.subrange(0, k + 1);
        assert(q.drop_last() =~= p);
        assert(q.last() == s[k]);
        lemma_digits_val_nonneg(p);
        assert(digits_val(q) == digits_val(p) * 10 + digit_val(s[k]));
        assert(digits_val(p) * 10 >= digits_val(p)) by (nonlinear_arith)
            requires
                digits_val(p) >= 0,
        ;
    } else {
        assert(s.subrange(0, k) =~= s);
    }
}

/// The unsigned digit body of an integer literal: what follows an optional
/// sign.
pub open spec fn int_body(s: Seq<char>) -> Seq<char> {
    if s.len() > 0 && (s[0] == '+' || s[0] == '-') {
        s.drop_first()
    } else {
        s
    }
}

/// Whether `s` is an integer literal: an optional sign followed by at least
/// one decimal digit and nothing else.
pub open spec fn valid_int_str(s: Seq<char>) -> bool {
    int_body(s).len() > 0 && forall|i: int|
        0 <= i < int_body(s).len() ==> is_digit(#[trigger] int_body(s)[i])
}

/// The value of an integer literal.
pub open spec fn int_str_val(s: Seq<char>) -> int {
    if s.len() > 0 && s[0] == '-' {
        -digits_val(int_body(s))
    } else {
        digits_val(int_body(s))
    }
}

/// Parses a 32-bit signed integer: an optional sign and decimal digits.
/// Yields the value exactly when the text is such a literal and its value
/// fits; anything else yields nothing.
#[verifier::loop_isolation(false)]
pub fn parse_i32(s: &str) -> (r: Option<i32>)
    ensures
        r is Some <==> valid_int_str(s@) && -0x8000_0000 <= int_str_val(s@) <= 0x7fff_ffff,
        match r {
            Some(v) => v == int_str_val(s@),
            None => true,
        },
{
    let n = s.unicode_len();
    if n == 0 {
        return None;
    }
    let first = s.get_char(0);
    let negative = first == '-';
    let has_sign = first == '-' || first == '+';
    let start: usize = if has_sign {
        1
    } else {
        0
    };
    let ghost body = int_body(s@);
    proof {
        assert(body =~= s@.skip(start as int));
    }
    if n == start {
        return None;
    }
    let mut acc: i64 = 0;
    let mut i: usize = start;
    while i < n
        invariant
            start <= i <= n,
            n == s@.len(),
            body == int_body(s@),
            body =~= s@.skip(start as int),
            forall|q: int| 0 <= q < i - start ==> is_digit(#[trigger] body[q]),
            0 <= acc <= 0x8000_0000,
            acc == digits_val(body.subrange(0, i - start)),
        decreases n - i,
    {
        let c = s.get_char(i);
        proof {
            assert(body[i - start] == s@[i as int]);
        }
        if !('0' <= c && c <= '9') {
            return None;
        }
        let d = (c as u32) - ('0' as u32);
        if acc > 214748364 || (acc == 214748364 && d > 8) {
            proof {
                let k = i - start + 1;
                assert(body.subrange(0, k).drop_last() =~= body.subrange(0, k - 1));
                assert(body.subrange(0, k).last() == body[k - 1]);
                assert(digits_val(body.subrange(0, k)) == acc * 10 + d);
                if valid_int_str(s@) {
                    lemma_digits_val_monotone(body, k);
                    assert(digits_val(body) >= acc * 10 + d);
                    assert(acc * 10 + d > 0x8000_0000) by (nonlinear_arith)
                        requires
                            acc > 214748364 || (acc == 214748364 && d > 8),
                            0 <= acc,
                            0 <= d <= 9,
                    ;
                }
            }
            return None;
        }
        acc = acc * 10 + (d as i64);
        proof {
            let k = i - start + 1;
            assert(body.subrange(0, k).drop_last() =~= body.subrange(0, k - 1));
            assert(body.subrange(0, k).last() == body[k - 1]);
        }
        i = i + 1;
    }
    proof {
        assert(body.subrange(0, n - start) =~= body);
        assert(valid_int_str(s@));
    }
    if negative {
        let v = (-acc) as i32;
        proof {
            assert(int_str_val(s@) == -acc);
        }
        Some(v)
    } else {
        if acc > 2147483647 {
            proof {
                assert(int_str_val(s@) == acc);
            }
            return None;
        }
        let v = acc as i32;
        Some(v)
    }
}

/// Whether `c` is a hexadecimal digit.
pub open spec fn is_hex_digit(c: char) -> bool {
    ('0' <= c && c <= '9') || ('a' <= c && c <= 'f') || ('A' <= c && c <= 'F')
}

/// The value of a hexadecimal digit.
pub open spec fn hex_digit_val(c: char) -> int {
    if '0' <= c && c <= '9' {
        c as int - '0' as int
    } else if 'a' <= c && c <= 'f' {
        c as int - 'a' as int + 10
    } else {
        c as int - 'A' as int + 10
    }
}

/// The value of a sequence of hexadecimal digits, most significant first.
pub open spec fn hex_val(s: Seq<char>) -> int
    decreases s.len(),
{
    if s.len() == 0 {
        0
    } else {
        hex_val(s.drop_last()) * 16 + hex_digit_val(s.last())
    }
}

/// A hexadecimal string's value is nonnegative.
pub proof fn lemma_hex_val_nonneg(s: Seq<char>)
    requires
        forall|i: int| 0 <= i < s.len() ==> is_hex_digit(#[trigger] s[i]),
    ensures
        hex_val(s) >= 0,
    decreases s.len(),
{
    if s.len() > 0 {
        assert(forall|i: int|
            0 <= i < s.drop_last().len() ==> is_hex_digit(#[trigger] s.drop_last()[i]));
        lemma_hex_val_nonneg(s.drop_last());
    }
}

/// Extending a hexadecimal string never shrinks its value.
pub proof fn lemma_hex_val_monotone(s: Seq<char>, k: int)
    requires
        forall|i: int| 0 <= i < s.len() ==> is_hex_digit(#[trigger] s[i]),
        0 <= k <= s.len(),
    ensures
        hex_val(s.subrange(0, k)) <= hex_val(s),
    decreases s.len() - k,
{
    if k < s.len() {
        lemma_hex_val_monotone(s, k + 1);
        let p = s.subrange(0, k);
        let q = s.subrange(0, k + 1);
        assert(q.drop_last() =~= p);
        assert(q.last() == s[k]);
        lemma_hex_val_nonneg(p);
        assert(hex_val(q) == hex_val(p) * 16 + hex_digit_val(s[k]));
        assert(hex_val(p) * 16 >= hex_val(p)) by (nonlinear_arith)
            requires
                hex_val(p) >= 0,
        ;
    } else {
        assert(s.subrange(0, k) =~= s);
    }
}

/// The digit body of an unsigned hexadecimal literal: what follows an
/// optional plus sign.
pub open spec fn hex_body(s: Seq<char>) -> Seq<char> {
    if s.len() > 0 && s[0] == '+' {
        s.drop_first()
    } else {
        s
    }
}

/// Whether `s` is an unsigned hexadecimal literal: an optional plus sign
/// followed by at least one hexadecimal digit and nothing else.
pub open spec fn valid_hex_str(s: Seq<char>) -> bool {
    hex_body(s).len() > 0 && forall|i: int|
        0 <= i < hex_body(s).len() ==> is_hex_digit(#[trigger] hex_body(s)[i])
}

/// The value of an unsigned hexadecimal literal.
pub open spec fn hex_str_val(s: Seq<char>) -> int {
    hex_val(hex_body(s))
}

/// Parses an unsigned 32-bit hexadecimal literal. Yields the value exactly
/// when the text is such a literal and its value fits; anything else yields
/// nothing.
#[verifier::loop_isolation(false)]
pub fn parse_hex_u32(s: &str) -> (r: Option<u32>)
    ensures
        r is Some <==> valid_hex_str(s@) && hex_str_val(s@) <= 0xffff_ffff,
        match r {
            Some(v) => v == hex_str_val(s@),
            None => true,
        },
{
    let n = s.unicode_len();
    if n == 0 {
        return None;
    }
    let first = s.get_char(0);
    let has_sign = first == '+';
    let start: usize = if has_sign {
        1
    } else {
        0
    };
    let ghost body = hex_body(s@);
    proof {
        assert(body =~= s@.skip(start as int));
    }
    if n == start {
        return None;
    }
    let mut acc: u64 = 0;
    let mut i: usize = start;
    while i < n
        invariant
            start <= i <= n,
            n == s@.len(),
            body == hex_body(s@),
            body =~= s@.skip(start as int),
            forall|q: int| 0 <= q < i - start ==> is_hex_digit(#[trigger] body[q]),
            0 <= acc <= 0xffff_ffff,
            acc == hex_val(body.subrange(0, i - start)),
        decreases n - i,
    {
        let c = s.get_char(i);
        proof {
            assert(body[i - start] == s@[i as int]);
        }
        let d: u32 = if '0' <= c && c <= '9' {
            (c as u32) - ('0' as u32)
        } else if 'a' <= c && c <= 'f' {
            (c as u32) - ('a' as u32) + 10
        } else if 'A' <= c && c <= 'F' {
            (c as u32) - ('A' as u32) + 10
        } else {
            return None;
        };
        proof {
            assert(d == hex_digit_val(s@[i as int]));
        }
        if acc > 0xfff_ffff {
            proof {
                let k = i - start + 1;
                assert(body.subrange(0, k).drop_last() =~= body.subrange(0, k - 1));
                assert(body.subrange(0, k).last() == body[k - 1]);
                assert(hex_val(body.subrange(0, k)) == acc * 16 + d);
                if valid_hex_str(s@) {
                    lemma_hex_val_monotone(body, k);
                    assert(hex_val(body) >= acc * 16 + d);
                    assert(acc * 16 + d > 0xffff_ffff) by (nonlinear_arith)
                        requires
                            acc > 0xfff_ffff,
                            0 <= d,
                    ;
                }
            }
            return None;
        }
        acc = acc * 16 + (d as u64);
        proof {
            let k = i - start + 1;
            assert(body.subrange(0, k).drop_last() =~= body.subrange(0, k - 1));
            assert(body.subrange(0, k).last() == body[k - 1]);
        }
        i = i + 1;
    }
    proof {
        assert(body.subrange(0, n - start) =~= body);
        assert(valid_hex_str(s@));
    }
    Some(acc as u32)
}

} // verus!
