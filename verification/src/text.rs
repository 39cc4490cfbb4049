//! Line-oriented text model.
//!
//! A text is a sequence of characters; its lines each keep their trailing
//! newline, and only the final line of a text may lack one.  Splitting and
//! joining are inverses, which is the ground the document model's lossless
//! round trip stands on.

use vstd::prelude::*;

verus! {

/// One line: nonempty, with no newline before its final character.
pub open spec fn is_line(l: Seq<char>) -> bool {
    l.len() > 0 && (forall|i: int| 0 <= i < l.len() - 1 ==> l[i] != '\n')
}

/// A line that carries its terminator.
pub open spec fn is_terminated(l: Seq<char>) -> bool {
    is_line(l) && l.last() == '\n'
}

/// Index of the first newline of `t` at or after `from`, or `t.len()` if none.
pub open spec fn find_newline(t: Seq<char>, from: int) -> int
    decreases t.len() - from when 0 <= from <= t.len()
{
    if from >= t.len() {
        t.len() as int
    } else if t[from] == '\n' {
        from
    } else {
        find_newline(t, from + 1)
    }
}

/// The lines of a text, each keeping its newline; the final line may lack one.
pub open spec fn lines_of(t: Seq<char>) -> Seq<Seq<char>>
    decreases t.len(),
    via lines_of_decreases
{
    if t.len() == 0 {
        Seq::empty()
    } else {
        let k = find_newline(t, 0);
        if k == t.len() {
            seq![t]
        } else {
            seq![t.subrange(0, k + 1)] + lines_of(t.subrange(k + 1, t.len() as int))
        }
    }
}

#[via_fn]
proof fn lines_of_decreases(t: Seq<char>) {
    if t.len() > 0 {
        lemma_find_newline(t, 0);
    }
}

/// The text a sequence of lines stands for.
pub open spec fn concat_texts(ls: Seq<Seq<char>>) -> Seq<char> {
    ls.flatten()
}

/// The views of a vector of owned lines.
pub open spec fn views_of(v: Seq<String>) -> Seq<Seq<char>> {
    v.map_values(|l: String| l@)
}

/// A single line is its own line list.
pub proof fn lemma_lines_single(l: Seq<char>)
    requires
        is_line(l),
    ensures
        lines_of(l) =~= seq![l],
{
    lemma_find_newline(l, 0);
    let k = find_newline(l, 0);
    if l.last() == '\n' {
        lemma_find_newline_exact(l);
        assert(k == l.len() - 1);
        assert(l.subrange(0, k + 1) =~= l);
        assert(l.subrange(k + 1, l.len() as int) =~= Seq::<char>::empty());
        assert(lines_of(l.subrange(k + 1, l.len() as int)) =~= Seq::<Seq<char>>::empty());
        assert(lines_of(l) =~= seq![l] + Seq::<Seq<char>>::empty());
    } else {
        assert(k == l.len()) by {
            if k < l.len() {
                assert(l[k] == '\n');
                if k < l.len() - 1 {
                    assert(false);
                }
            }
        }
    }
}

pub proof fn lemma_find_newline(t: Seq<char>, from: int)
    requires
        0 <= from <= t.len(),
    ensures
        from <= find_newline(t, from) <= t.len(),
        find_newline(t, from) < t.len() ==> t[find_newline(t, from)] == '\n',
        forall|i: int| from <= i < find_newline(t, from) ==> t[i] != '\n',
    decreases t.len() - from,
{
    if from < t.len() && t[from] != '\n' {
        lemma_find_newline(t, from + 1);
    }
}

/// Joining the lines of a text gives the text back.
pub proof fn lemma_lines_roundtrip(t: Seq<char>)
    ensures
        concat_texts(lines_of(t)) =~= t,
    decreases t.len(),
{
    if t.len() > 0 {
        let k = find_newline(t, 0);
        lemma_find_newline(t, 0);
        if k == t.len() {
            assert(lines_of(t) =~= seq![t]);
            lines_of(t).lemma_flatten_one_element();
        } else {
            let head = t.subrange(0, k + 1);
            let tail = t.subrange(k + 1, t.len() as int);
            lemma_lines_roundtrip(tail);
            assert(lines_of(t) =~= seq![head] + lines_of(tail));
            lemma_flatten_prepend(head, lines_of(tail));
            assert(head + tail =~= t);
        }
    }
}

/// Every line of a text is a line; all but the last carry their newline,
/// and the last does exactly when the text ends with one.
pub proof fn lemma_lines_shape(t: Seq<char>)
    ensures
        forall|i: int| 0 <= i < lines_of(t).len() ==> is_line(#[trigger] lines_of(t)[i]),
        forall|i: int| 0 <= i < lines_of(t).len() - 1 ==> is_terminated(#[trigger] lines_of(t)[i]),
        t.len() > 0 ==> lines_of(t).len() > 0,
        t.len() > 0 && t.last() == '\n' ==> is_terminated(lines_of(t).last()),
    decreases t.len(),
{
    if t.len() > 0 {
        let k = find_newline(t, 0);
        lemma_find_newline(t, 0);
        if k < t.len() {
            lemma_lines_shape(t.subrange(k + 1, t.len() as int));
            if k + 1 == t.len() {
                assert(t.subrange(k + 1, t.len() as int) =~= Seq::<char>::empty());
                assert(lines_of(t.subrange(k + 1, t.len() as int)) =~= Seq::<
                    Seq<char>,
                >::empty());
                assert(lines_of(t) =~= seq![t.subrange(0, k + 1)]);
                assert(t.subrange(0, k + 1) =~= t);
            }
        }
    }
}

proof fn lemma_flatten_prepend(head: Seq<char>, rest: Seq<Seq<char>>)
    ensures
        (seq![head] + rest).flatten() =~= head + rest.flatten(),
{
    let all = seq![head] + rest;
    assert(all.len() > 0);
    assert(all.first() == head);
    assert(all.drop_first() =~= rest);
}

/// Appending one more line to a line list extends the joined text by it.
pub proof fn lemma_flatten_push(ls: Seq<Seq<char>>, l: Seq<char>)
    ensures
        (ls.push(l)).flatten() =~= ls.flatten() + l,
    decreases ls.len(),
{
    if ls.len() == 0 {
        assert(ls.push(l) =~= seq![l]);
        ls.push(l).lemma_flatten_one_element();
        assert(ls.flatten() + l =~= l);
    } else {
        lemma_flatten_push(ls.drop_first(), l);
        assert(ls.push(l).drop_first() =~= ls.drop_first().push(l));
        assert(ls.push(l).first() == ls.first());
        assert(ls.first() + (ls.drop_first().flatten() + l) =~= (ls.first()
            + ls.drop_first().flatten()) + l);
    }
}

/// A text splits around any position that sits just after a newline.
pub proof fn lemma_lines_of_boundary(t: Seq<char>, p: int)
    requires
        0 <= p <= t.len(),
        p == 0 || t[p - 1] == '\n',
    ensures
        lines_of(t) =~= lines_of(t.subrange(0, p)) + lines_of(t.subrange(p, t.len() as int)),
    decreases t.len(),
{
    if p == 0 {
        assert(t.subrange(0, 0) =~= Seq::<char>::empty());
        assert(t.subrange(0, t.len() as int) =~= t);
    } else {
        let k = find_newline(t, 0);
        lemma_find_newline(t, 0);
        assert(k < t.len()) by {
            assert(t[p - 1] == '\n');
        }
        let a = t.subrange(0, p);
        let ka = find_newline(a, 0);
        assert(forall|i: int| 0 <= i < k ==> a.len() > i ==> a[i] != '\n');
        lemma_find_newline_agree(t, a, k);
        if k + 1 == p {
            // the first line of `t` is exactly the last line of `a`
            assert(a.subrange(0, k + 1) =~= t.subrange(0, k + 1));
            assert(lines_of(a) =~= seq![a.subrange(0, k + 1)] + lines_of(
                a.subrange(k + 1, a.len() as int),
            ));
            assert(a.subrange(k + 1, a.len() as int) =~= Seq::<char>::empty());
            assert(lines_of(a) =~= seq![t.subrange(0, k + 1)]);
        } else {
            let tail = t.subrange(k + 1, t.len() as int);
            assert(k + 1 < p);
            assert(tail[p - (k + 1) - 1] == t[p - 1]);
            lemma_lines_of_boundary(tail, p - (k + 1));
            assert(tail.subrange(0, p - (k + 1)) =~= a.subrange(k + 1, a.len() as int));
            assert(tail.subrange(p - (k + 1), tail.len() as int) =~= t.subrange(
                p,
                t.len() as int,
            ));
            assert(a.subrange(0, k + 1) =~= t.subrange(0, k + 1));
            assert(lines_of(a) =~= seq![a.subrange(0, k + 1)] + lines_of(
                a.subrange(k + 1, a.len() as int),
            ));
        }
    }
}

proof fn lemma_find_newline_agree(t: Seq<char>, a: Seq<char>, k: int)
    requires
        a.len() <= t.len(),
        forall|i: int| 0 <= i < a.len() ==> a[i] == t[i],
        k == find_newline(t, 0),
        forall|i: int| 0 <= i < k ==> t[i] != '\n',
        k < t.len() ==> t[k] == '\n',
        0 <= k <= t.len(),
    ensures
        k < a.len() ==> find_newline(a, 0) == k,
        k >= a.len() ==> find_newline(a, 0) == a.len(),
{
    lemma_find_newline(a, 0);
    let ka = find_newline(a, 0);
    if k < a.len() {
        if ka < k {
            assert(a[ka] == '\n');
            assert(t[ka] != '\n');
            assert(false);
        }
        if ka > k {
            assert(a[k] == t[k]);
            assert(a[k] == '\n');
            assert(forall|i: int| 0 <= i < ka ==> a[i] != '\n');
            assert(false);
        }
    } else {
        if ka < a.len() {
            assert(a[ka] == '\n');
            assert(t[ka] != '\n');
            assert(false);
        }
    }
}

/// Splits a text into its lines, each keeping its trailing newline.
pub fn split_lines(s: &str) -> (r: Vec<String>)
    ensures
        views_of(r@) =~= lines_of(s@),
{
    let n = s.unicode_len();
    let mut out: Vec<String> = Vec::new();
    let mut start: usize = 0;
    let mut i: usize = 0;
    while i < n
        invariant
            0 <= start <= i <= n,
            n == s@.len(),
            start == 0 || s@[start - 1] == '\n',
            forall|j: int| start <= j < i ==> s@[j] != '\n',
            views_of(out@) =~= lines_of(s@.subrange(0, start as int)),
        decreases n - i,
    {
        if s.get_char(i) == '\n' {
            let line = s.substring_char(start, i + 1).to_owned();
            proof {
                lemma_lines_of_boundary(
                    s@.subrange(0, i + 1),
                    start as int,
                );
                assert(s@.subrange(0, i + 1).subrange(0, start as int) =~= s@.subrange(
                    0,
                    start as int,
                ));
                let piece = s@.subrange(0, i + 1).subrange(start as int, i + 1);
                assert(piece =~= s@.subrange(start as int, i + 1));
                assert(piece[piece.len() - 1] == '\n');
                assert(forall|j: int| 0 <= j < piece.len() - 1 ==> piece[j] != '\n');
                lemma_lines_single(piece);
                assert(views_of(out@.push(line)) =~= views_of(out@).push(line@));
            }
            out.push(line);
            start = i + 1;
        }
        i = i + 1;
    }
    if start < n {
        let line = s.substring_char(start, n).to_owned();
        proof {
            lemma_lines_of_boundary(s@, start as int);
            assert(s@.subrange(0, s@.len() as int) =~= s@);
            let piece = s@.subrange(start as int, n as int);
            assert(forall|j: int| 0 <= j < piece.len() ==> piece[j] != '\n');
            lemma_lines_single(piece);
            assert(views_of(out@.push(line)) =~= views_of(out@).push(line@));
        }
        out.push(line);
    } else {
        proof {
            assert(s@.subrange(0, start as int) =~= s@);
        }
    }
    out
}

proof fn lemma_find_newline_exact(piece: Seq<char>)
    requires
        piece.len() > 0,
        piece[piece.len() - 1] == '\n',
        forall|j: int| 0 <= j < piece.len() - 1 ==> piece[j] != '\n',
    ensures
        find_newline(piece, 0) == piece.len() - 1,
{
    lemma_find_newline(piece, 0);
    let k = find_newline(piece, 0);
    if k < piece.len() - 1 {
        assert(piece[k] == '\n');
        assert(false);
    }
}

/// Joins owned lines back into one text.
pub fn concat_strings(v: &Vec<String>) -> (r: String)
    ensures
        r@ =~= concat_texts(views_of(v@)),
{
    let mut r = String::new();
    let mut i: usize = 0;
    while i < v.len()
        invariant
            0 <= i <= v.len(),
            r@ =~= concat_texts(views_of(v@.subrange(0, i as int))),
        decreases v.len() - i,
    {
        proof {
            lemma_flatten_push(views_of(v@.subrange(0, i as int)), v@[i as int]@);
            assert(views_of(v@.subrange(0, i + 1)) =~= views_of(
                v@.subrange(0, i as int),
            ).push(v@[i as int]@));
        }
        r.append(v[i].as_str());
        i = i + 1;
    }
    proof {
        assert(v@.subrange(0, v@.len() as int) =~= v@);
    }
    r
}

/// Splitting the joined text of proper lines gives the lines back: every
/// element is a line, and each but the last carries its newline.
pub proof fn lemma_lines_of_flatten(ls: Seq<Seq<char>>)
    requires
        forall|i: int| 0 <= i < ls.len() ==> is_line(#[trigger] ls[i]),
        forall|i: int| 0 <= i < ls.len() - 1 ==> is_terminated(#[trigger] ls[i]),
    ensures
        lines_of(concat_texts(ls)) =~= ls,
    decreases ls.len(),
{
    if ls.len() == 0 {
    } else if ls.len() == 1 {
        assert(concat_texts(ls) =~= ls[0]) by {
            ls.lemma_flatten_one_element();
        }
        lemma_lines_single(ls[0]);
    } else {
        let head = ls.first();
        let rest = ls.drop_first();
        assert(concat_texts(ls) == head + concat_texts(rest));
        lemma_lines_of_flatten(rest);
        let t = head + concat_texts(rest);
        assert(is_terminated(head));
        assert(t.len() >= head.len());
        assert(t[head.len() - 1] == '\n');
        lemma_lines_of_boundary(t, head.len() as int);
        assert(t.subrange(0, head.len() as int) =~= head);
        assert(t.subrange(head.len() as int, t.len() as int) =~= concat_texts(rest));
        lemma_lines_single(head);
        assert(lines_of(t) =~= seq![head] + rest);
        assert(seq![head] + rest =~= ls);
    }
}

/// Lexicographic order on texts, characters compared by code point.
pub open spec fn text_lt(a: Seq<char>, b: Seq<char>) -> bool
    decreases a.len(),
{
    if b.len() == 0 {
        false
    } else if a.len() == 0 {
        true
    } else if a[0] == b[0] {
        text_lt(a.drop_first(), b.drop_first())
    } else {
        (a[0] as u32) < (b[0] as u32)
    }
}

/// Compares two texts in lexicographic order.
pub fn text_less(a: &str, b: &str) -> (r: bool)
    ensures
        r == text_lt(a@, b@),
{
    let na = a.unicode_len();
    let nb = b.unicode_len();
    let mut i: usize = 0;
    proof {
        assert(a@.skip(0) =~= a@);
        assert(b@.skip(0) =~= b@);
    }
    loop
        invariant
            0 <= i <= na,
            i <= nb,
            na == a@.len(),
            nb == b@.len(),
            forall|j: int| 0 <= j < i ==> a@[j] == b@[j],
            text_lt(a@, b@) == text_lt(a@.skip(i as int), b@.skip(i as int)),
        decreases na - i,
    {
        if i >= nb {
            proof {
                assert(b@.skip(i as int).len() == 0);
            }
            return false;
        }
        if i >= na {
            proof {
                assert(a@.skip(i as int).len() == 0);
                assert(b@.skip(i as int).len() > 0);
            }
            return true;
        }
        let ca = a.get_char(i);
        let cb = b.get_char(i);
        if ca != cb {
            proof {
                assert(a@.skip(i as int)[0] == a@[i as int]);
                assert(b@.skip(i as int)[0] == b@[i as int]);
            }
            return (ca as u32) < (cb as u32);
        }
        proof {
            assert(a@.skip(i as int)[0] == b@.skip(i as int)[0]);
            assert(a@.skip(i as int).drop_first() =~= a@.skip(i + 1));
            assert(b@.skip(i as int).drop_first() =~= b@.skip(i + 1));
        }
        i = i + 1;
    }
}

/// True when `pat` occurs in `s` at position `at`.
pub open spec fn matches_at(s: Seq<char>, at: int, pat: Seq<char>) -> bool {
    0 <= at && at + pat.len() <= s.len() && s.subrange(at, at + pat.len()) =~= pat
}

/// Checks whether `pat` occurs in `s` at position `at`.
pub fn range_matches(s: &str, at: usize, pat: &str) -> (r: bool)
    requires
        at <= s@.len(),
    ensures
        r == matches_at(s@, at as int, pat@),
{
    let n = s.unicode_len();
    let m = pat.unicode_len();
    if m > n - at {
        return false;
    }
    let mut i: usize = 0;
    while i < m
        invariant
            0 <= i <= m,
            at + m <= n,
            n == s@.len(),
            m == pat@.len(),
            forall|j: int| 0 <= j < i ==> s@[at + j] == pat@[j],
        decreases m - i,
    {
        if s.get_char(at + i) != pat.get_char(i) {
            proof {
                assert(s@.subrange(at as int, at + pat@.len())[i as int] == s@[at + i]);
            }
            return false;
        }
        i = i + 1;
    }
    proof {
        assert(s@.subrange(at as int, at + pat@.len()) =~= pat@);
    }
    true
}


// ---------------------------------------------------------------------------
// Decimal numbers in text
// ---------------------------------------------------------------------------
/// The character of one decimal digit.
pub open spec fn digit_char(d: int) -> char {
    if d == 0 { '0' } else if d == 1 { '1' } else if d == 2 { '2' } else if d == 3 { '3' }
    else if d == 4 { '4' } else if d == 5 { '5' } else if d == 6 { '6' } else if d == 7 { '7' }
    else if d == 8 { '8' } else { '9' }
}

/// The decimal text of a number.
pub open spec fn dec_str(n: nat) -> Seq<char>
    decreases n,
{
    if n < 10 {
        seq![digit_char(n as int)]
    } else {
        dec_str(n / 10) + seq![digit_char((n % 10) as int)]
    }
}

/// A decimal digit.
pub open spec fn is_digit(c: char) -> bool {
    ('0' as u32) <= (c as u32) && (c as u32) <= ('9' as u32)
}

pub open spec fn digit_val(c: char) -> int {
    (c as u32) - ('0' as u32)
}

/// A nonempty run of digits.
pub open spec fn all_digits(t: Seq<char>) -> bool {
    forall|i: int| 0 <= i < t.len() ==> is_digit(#[trigger] t[i])
}

/// The value of a digit run.
pub open spec fn dec_val(t: Seq<char>) -> int
    decreases t.len(),
{
    if t.len() == 0 {
        0
    } else {
        dec_val(t.drop_last()) * 10 + digit_val(t.last())
    }
}

fn digit_string(d: u64) -> (r: &'static str)
    requires
        d < 10,
    ensures
        r@ =~= seq![digit_char(d as int)],
{
    let r: &'static str = match d {
        0 => "0",
        1 => "1",
        2 => "2",
        3 => "3",
        4 => "4",
        5 => "5",
        6 => "6",
        7 => "7",
        8 => "8",
        _ => "9",
    };
    proof {
        reveal_strlit("0");
        reveal_strlit("1");
        reveal_strlit("2");
        reveal_strlit("3");
        reveal_strlit("4");
        reveal_strlit("5");
        reveal_strlit("6");
        reveal_strlit("7");
        reveal_strlit("8");
        reveal_strlit("9");
    }
    r
}

/// Writes a number in decimal.
pub fn u64_to_string(n: u64) -> (r: String)
    ensures
        r@ =~= dec_str(n as nat),
    decreases n,
{
    if n < 10 {
        digit_string(n).to_owned()
    } else {
        let mut s = u64_to_string(n / 10);
        s.append(digit_string(n % 10));
        s
    }
}

/// A longer digit run never has a smaller value.
pub proof fn lemma_dec_val_prefix(t: Seq<char>, k: int)
    requires
        0 <= k <= t.len(),
        all_digits(t),
    ensures
        dec_val(t.subrange(0, k)) <= dec_val(t),
        dec_val(t) >= 0,
    decreases t.len() - k,
{
    if k == t.len() {
        assert(t.subrange(0, k) =~= t);
        lemma_dec_val_nonneg(t);
    } else {
        lemma_dec_val_prefix(t, k + 1);
        let a = t.subrange(0, k);
        let b = t.subrange(0, k + 1);
        assert(b.drop_last() =~= a);
        assert(is_digit(b.last()));
        lemma_dec_val_nonneg(a);
        assert(dec_val(b) == dec_val(a) * 10 + digit_val(b.last()));
        assert(dec_val(a) <= dec_val(a) * 10) by (nonlinear_arith)
            requires dec_val(a) >= 0;
        assert(digit_val(b.last()) >= 0);
    }
}

pub proof fn lemma_dec_val_nonneg(t: Seq<char>)
    requires
        all_digits(t),
    ensures
        dec_val(t) >= 0,
    decreases t.len(),
{
    if t.len() > 0 {
        assert(all_digits(t.drop_last())) by {
            assert(forall|i: int| 0 <= i < t.len() - 1 ==> t.drop_last()[i] == t[i]);
        }
        lemma_dec_val_nonneg(t.drop_last());
        assert(is_digit(t.last()));
        assert(dec_val(t.drop_last()) * 10 >= 0) by (nonlinear_arith)
            requires dec_val(t.drop_last()) >= 0;
    }
}

/// Reads a decimal number; `None` on an empty text, a non-digit, or a value
/// beyond `u64`.
pub fn parse_u64(s: &str) -> (r: Option<u64>)
    ensures
        r is Some <==> s@.len() > 0 && all_digits(s@) && dec_val(s@) <= u64::MAX,
        r is Some ==> r->0 as int == dec_val(s@),
{
    let n = s.unicode_len();
    if n == 0 {
        return None;
    }
    let mut val: u64 = 0;
    let mut i: usize = 0;
    while i < n
        invariant
            0 <= i <= n,
            n == s@.len(),
            forall|j: int| 0 <= j < i ==> is_digit(#[trigger] s@[j]),
            val as int == dec_val(s@.subrange(0, i as int)),
        decreases n - i,
    {
        let c = s.get_char(i);
        let u = c as u32;
        if !(48 <= u && u <= 57) {
            proof {
                assert(('0' as u32) == 48 && ('9' as u32) == 57);
                assert(!is_digit(s@[i as int]));
            }
            return None;
        }
        let d: u64 = (u - 48) as u64;
        proof {
            assert(('0' as u32) == 48 && ('9' as u32) == 57);
            assert(d < 10);
            assert(d as int == digit_val(s@[i as int]));
        }
        if val > (u64::MAX - d) / 10 {
            proof {
                let pre = s@.subrange(0, i + 1);
                assert(pre.drop_last() =~= s@.subrange(0, i as int));
                assert(pre.last() == s@[i as int]);
                assert(dec_val(pre) == (val as int) * 10 + d);
                assert((val as int) * 10 + d > u64::MAX) by (nonlinear_arith)
                    requires
                        val > ((u64::MAX - d) / 10),
                        d < 10,
                        0 <= val <= u64::MAX;
                assert(all_digits(pre)) by {
                    assert(forall|j: int| 0 <= j < pre.len() ==> pre[j] == s@[j]);
                }
                if s@.len() > 0 && all_digits(s@) && dec_val(s@) <= u64::MAX {
                    lemma_dec_val_prefix(s@, i + 1);
                    assert(dec_val(s@.subrange(0, i + 1)) <= dec_val(s@));
                    assert(false);
                }
            }
            return None;
        }
        proof {
            let pre = s@.subrange(0, i + 1);
            assert(pre.drop_last() =~= s@.subrange(0, i as int));
            assert(pre.last() == s@[i as int]);
            assert((val as int) * 10 + d <= u64::MAX) by (nonlinear_arith)
                requires
                    val <= ((u64::MAX - d) / 10),
                    d < 10,
                    0 <= val;
        }
        val = val * 10 + d;
        i = i + 1;
    }
    proof {
        assert(s@.subrange(0, n as int) =~= s@);
    }
    Some(val)
}

// ---------------------------------------------------------------------------
// Whitespace trimming
// ---------------------------------------------------------------------------
/// The whitespace trimming strips at either end.
pub open spec fn is_ws(c: char) -> bool {
    c == ' ' || c == '\t' || c == '\n' || c == '\r'
}

pub open spec fn trim_start_spec(t: Seq<char>) -> Seq<char>
    decreases t.len(),
{
    if t.len() > 0 && is_ws(t[0]) {
        trim_start_spec(t.drop_first())
    } else {
        t
    }
}

pub open spec fn trim_end_spec(t: Seq<char>) -> Seq<char>
    decreases t.len(),
{
    if t.len() > 0 && is_ws(t.last()) {
        trim_end_spec(t.drop_last())
    } else {
        t
    }
}

/// The text without leading and trailing whitespace.
pub open spec fn trim_spec(t: Seq<char>) -> Seq<char> {
    trim_end_spec(trim_start_spec(t))
}

fn is_ws_char(c: char) -> (r: bool)
    ensures
        r == is_ws(c),
{
    c == ' ' || c == '\t' || c == '\n' || c == '\r'
}

proof fn lemma_trim_start_skip(t: Seq<char>, k: int)
    requires
        0 <= k <= t.len(),
        forall|j: int| 0 <= j < k ==> is_ws(#[trigger] t[j]),
        k < t.len() ==> !is_ws(t[k]),
    ensures
        trim_start_spec(t) =~= t.skip(k),
    decreases k,
{
    if k == 0 {
        if t.len() > 0 {
            assert(!is_ws(t[0]));
        }
        assert(t.skip(0) =~= t);
    } else {
        assert(is_ws(t[0]));
        assert(t.drop_first() =~= t.skip(1));
        lemma_trim_start_skip(t.skip(1), k - 1);
        assert(t.skip(1).skip(k - 1) =~= t.skip(k));
    }
}

proof fn lemma_trim_end_take(t: Seq<char>, k: int)
    requires
        0 <= k <= t.len(),
        forall|j: int| k <= j < t.len() ==> is_ws(#[trigger] t[j]),
        k > 0 ==> !is_ws(t[k - 1]),
    ensures
        trim_end_spec(t) =~= t.subrange(0, k),
    decreases t.len() - k,
{
    if k == t.len() {
        if t.len() > 0 {
            assert(!is_ws(t.last()));
        }
        assert(t.subrange(0, t.len() as int) =~= t);
    } else {
        assert(is_ws(t.last()));
        assert(t.drop_last() =~= t.subrange(0, t.len() - 1));
        lemma_trim_end_take(t.subrange(0, t.len() - 1), k);
    }
}

/// Strips whitespace from both ends.
pub fn trim_str(s: &str) -> (r: String)
    ensures
        r@ =~= trim_spec(s@),
{
    let n = s.unicode_len();
    let mut a: usize = 0;
    while a < n && is_ws_char(s.get_char(a))
        invariant
            0 <= a <= n,
            n == s@.len(),
            forall|j: int| 0 <= j < a ==> is_ws(#[trigger] s@[j]),
        decreases n - a,
    {
        a = a + 1;
    }
    proof {
        lemma_trim_start_skip(s@, a as int);
    }
    let mut b: usize = n;
    while b > a && is_ws_char(s.get_char(b - 1))
        invariant
            a <= b <= n,
            n == s@.len(),
            forall|j: int| b <= j < n ==> is_ws(#[trigger] s@[j]),
        decreases b,
    {
        b = b - 1;
    }
    let r = s.substring_char(a, b).to_owned();
    proof {
        let mid = s@.skip(a as int);
        assert(trim_start_spec(s@) == mid);
        assert(forall|j: int| b - a <= j < mid.len() ==> is_ws(#[trigger] mid[j]));
        if b > a {
            assert(!is_ws(mid[b - a - 1]));
        } else {
            assert(b == a);
            if a < n && b == a {
                assert(is_ws(s@[a as int]) || b == a);
            }
        }
        if b == a && a < n {
            // the scan from the right stopped at `a`, so everything from `a`
            // on is whitespace
            assert(forall|j: int| 0 <= j < mid.len() ==> is_ws(#[trigger] mid[j]));
        }
        lemma_trim_end_take(mid, b - a);
        assert(mid.subrange(0, b - a) =~= s@.subrange(a as int, b as int));
    }
    r
}


} // verus!
