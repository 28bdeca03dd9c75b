//! Space-separated token arithmetic: splitting and joining boot-option
//! strings, character comparisons, whitespace trimming, and decimal
//! rendering of record indices.

use vstd::prelude::*;

verus! {

/// Tokens of `s` split on every single space: consecutive spaces yield
/// empty tokens and the empty string yields one empty token, so that
/// joining with single spaces is the exact inverse.
pub open spec fn split_sp(s: Seq<char>) -> Seq<Seq<char>>
    decreases s.len(),
{
    if s.len() == 0 {
        seq![Seq::<char>::empty()]
    } else if s[0] == ' ' {
        seq![Seq::<char>::empty()] + split_sp(s.skip(1))
    } else {
        let rest = split_sp(s.skip(1));
        seq![seq![s[0]] + rest[0]] + rest.skip(1)
    }
}

/// The tokens rejoined with one space between consecutive tokens.
pub open spec fn join_sp(ts: Seq<Seq<char>>) -> Seq<char>
    decreases ts.len(),
{
    if ts.len() == 0 {
        Seq::<char>::empty()
    } else if ts.len() == 1 {
        ts[0]
    } else {
        ts[0] + seq![' '] + join_sp(ts.skip(1))
    }
}

pub proof fn lemma_split_len(s: Seq<char>)
    ensures
        split_sp(s).len() >= 1,
    decreases s.len(),
{
    if s.len() == 0 {
    } else if s[0] == ' ' {
        lemma_split_len(s.skip(1));
    } else {
        lemma_split_len(s.skip(1));
    }
}

/// No token produced by splitting contains a space.
pub proof fn lemma_split_no_space(s: Seq<char>)
    ensures
        forall|k: int|
            0 <= k < split_sp(s).len() ==> !(#[trigger] split_sp(s)[k]).contains(' '),
    decreases s.len(),
{
    if s.len() == 0 {
        assert(!split_sp(s)[0].contains(' '));
    } else if s[0] == ' ' {
        lemma_split_no_space(s.skip(1));
        assert(!split_sp(s)[0].contains(' '));
        assert(forall|k: int|
            1 <= k < split_sp(s).len() ==> split_sp(s)[k] == split_sp(s.skip(1))[k - 1]);
    } else {
        lemma_split_no_space(s.skip(1));
        lemma_split_len(s.skip(1));
        let rest = split_sp(s.skip(1));
        let first = seq![s[0]] + rest[0];
        assert forall|j: int| 0 <= j < first.len() implies first[j] != ' ' by {
            if j == 0 {
            } else {
                assert(!rest[0].contains(' '));
                assert(first[j] == rest[0][j - 1]);
            }
        }
        assert(!first.contains(' '));
        assert(forall|k: int|
            1 <= k < split_sp(s).len() ==> split_sp(s)[k] == rest[k]);
    }
}

/// Splitting a string whose first space stands at `k` yields the prefix
/// before `k` as the first token, then the tokens of the remainder.
pub proof fn lemma_split_at_space(s: Seq<char>, k: int)
    requires
        0 <= k < s.len(),
        s[k] == ' ',
        forall|j: int| 0 <= j < k ==> s[j] != ' ',
    ensures
        split_sp(s) == seq![s.take(k)] + split_sp(s.skip(k + 1)),
    decreases k,
{
    if k == 0 {
        assert(s.take(0) =~= Seq::<char>::empty());
        assert(split_sp(s) =~= seq![s.take(0)] + split_sp(s.skip(1)));
    } else {
        let t = s.skip(1);
        assert(t[k - 1] == ' ');
        lemma_split_at_space(t, k - 1);
        lemma_split_len(t.skip(k));
        let rest = split_sp(t);
        assert(rest[0] == t.take(k - 1));
        assert(seq![s[0]] + rest[0] =~= s.take(k));
        assert(t.skip(k) =~= s.skip(k + 1));
        assert(rest.skip(1) =~= split_sp(s.skip(k + 1)));
        assert(split_sp(s) =~= seq![s.take(k)] + split_sp(s.skip(k + 1)));
    }
}

/// Splitting a string without spaces yields that string as the one token.
pub proof fn lemma_split_whole(s: Seq<char>)
    requires
        forall|j: int| 0 <= j < s.len() ==> s[j] != ' ',
    ensures
        split_sp(s) == seq![s],
    decreases s.len(),
{
    if s.len() == 0 {
        assert(s =~= Seq::<char>::empty());
        assert(split_sp(s) =~= seq![s]);
    } else {
        assert(s[0] != ' ');
        assert forall|j: int| 0 <= j < s.skip(1).len() implies s.skip(1)[j] != ' ' by {
            assert(s.skip(1)[j] == s[j + 1]);
        }
        lemma_split_whole(s.skip(1));
        let rest = split_sp(s.skip(1));
        assert(split_sp(s) == seq![seq![s[0]] + rest[0]] + rest.skip(1));
        assert(rest[0] == s.skip(1));
        assert(seq![s[0]] + rest[0] =~= s);
        assert(rest.skip(1) =~= Seq::<Seq<char>>::empty());
        assert(split_sp(s) =~~= seq![s]);
    }
}

/// Appending one more token to a non-empty list extends the joined string
/// by a space and that token.
pub proof fn lemma_join_push(ts: Seq<Seq<char>>, t: Seq<char>)
    requires
        ts.len() >= 1,
    ensures
        join_sp(ts.push(t)) == join_sp(ts) + seq![' '] + t,
    decreases ts.len(),
{
    if ts.len() == 1 {
        assert(ts.push(t).skip(1) =~= seq![t]);
        assert(ts.push(t)[0] == ts[0]);
        assert(ts.push(t).len() == 2);
        assert(join_sp(ts.push(t)) == ts.push(t)[0] + seq![' '] + join_sp(ts.push(t).skip(1)));
        assert(seq![t][0] == t);
        assert(join_sp(seq![t]) == t);
        assert(join_sp(ts) == ts[0]);
    } else {
        lemma_join_push(ts.skip(1), t);
        assert(ts.push(t).skip(1) =~= ts.skip(1).push(t));
        assert(ts.push(t)[0] == ts[0]);
        assert(join_sp(ts.push(t)) =~= join_sp(ts) + seq![' '] + t);
    }
}

/// Joining the tokens of a split restores the original string.
pub proof fn lemma_join_split(s: Seq<char>)
    ensures
        join_sp(split_sp(s)) == s,
    decreases s.len(),
{
    if s.len() == 0 {
        assert(join_sp(split_sp(s)) =~= s);
    } else if s[0] == ' ' {
        lemma_join_split(s.skip(1));
        lemma_split_len(s.skip(1));
        let parts = seq![Seq::<char>::empty()] + split_sp(s.skip(1));
        assert(parts.skip(1) =~= split_sp(s.skip(1)));
        assert(parts[0] == Seq::<char>::empty());
        assert(join_sp(parts) =~= s);
    } else {
        lemma_join_split(s.skip(1));
        lemma_split_len(s.skip(1));
        let rest = split_sp(s.skip(1));
        let parts = seq![seq![s[0]] + rest[0]] + rest.skip(1);
        if rest.len() == 1 {
            assert(parts.len() == 1);
            assert(join_sp(rest) == rest[0]);
            assert(join_sp(parts) == seq![s[0]] + rest[0]);
            assert(seq![s[0]] + s.skip(1) =~= s);
        } else {
            assert(parts.skip(1) =~= rest.skip(1));
            assert(join_sp(rest) == rest[0] + seq![' '] + join_sp(rest.skip(1)));
            assert(join_sp(parts) =~= seq![s[0]] + join_sp(rest));
            assert(seq![s[0]] + s.skip(1) =~= s);
        }
    }
}

/// Splitting a joined token list restores the tokens, provided no token
/// contains a space.
pub proof fn lemma_split_join(ts: Seq<Seq<char>>)
    requires
        ts.len() >= 1,
        forall|k: int| 0 <= k < ts.len() ==> !(#[trigger] ts[k]).contains(' '),
    ensures
        split_sp(join_sp(ts)) == ts,
    decreases ts.len(),
{
    if ts.len() == 1 {
        assert forall|j: int| 0 <= j < ts[0].len() implies ts[0][j] != ' ' by {
            assert(!ts[0].contains(' '));
        }
        lemma_split_whole(ts[0]);
        assert(split_sp(join_sp(ts)) =~= ts);
    } else {
        let s = join_sp(ts);
        let rest = ts.skip(1);
        assert(s == ts[0] + seq![' '] + join_sp(rest));
        let k = ts[0].len() as int;
        assert(s[k] == ' ');
        assert forall|j: int| 0 <= j < k implies s[j] != ' ' by {
            assert(s[j] == ts[0][j]);
            assert(!ts[0].contains(' '));
        }
        lemma_split_at_space(s, k);
        assert(s.take(k) =~= ts[0]);
        assert(s.skip(k + 1) =~= join_sp(rest));
        assert forall|j: int| 0 <= j < rest.len() implies !(#[trigger] rest[j]).contains(' ') by {
            assert(rest[j] == ts[j + 1]);
        }
        lemma_split_join(rest);
        assert(seq![ts[0]] + rest =~= ts);
    }
}

/// The character for one decimal digit.
pub open spec fn digit_char(d: nat) -> char {
    if d == 0 {
        '0'
    } else if d == 1 {
        '1'
    } else if d == 2 {
        '2'
    } else if d == 3 {
        '3'
    } else if d == 4 {
        '4'
    } else if d == 5 {
        '5'
    } else if d == 6 {
        '6'
    } else if d == 7 {
        '7'
    } else if d == 8 {
        '8'
    } else {
        '9'
    }
}

/// The decimal representation of `n`, without leading zeros.
pub open spec fn dec_str(n: nat) -> Seq<char>
    decreases n,
{
    if n < 10 {
        seq![digit_char(n)]
    } else {
        dec_str(n / 10).push(digit_char(n % 10))
    }
}

/// One decimal digit as a string literal.
pub fn digit_literal(d: usize) -> (r: &'static str)
    requires
        d < 10,
    ensures
        r@ == seq![digit_char(d as nat)],
{
    proof {
        reveal_strlit("0");
        reveal_strlit("1");
        reveal_strlit("2");
        reveal_strlit("3");
        reveal_strlit("4");
        reveal_strlit("5");
        reveal_strlit("6");
        reveal_strlit("7");
        reveal_strlit("8");
        reveal_strlit("9");
    }
    let r = if d == 0 {
        "0"
    } else if d == 1 {
        "1"
    } else if d == 2 {
        "2"
    } else if d == 3 {
        "3"
    } else if d == 4 {
        "4"
    } else if d == 5 {
        "5"
    } else if d == 6 {
        "6"
    } else if d == 7 {
        "7"
    } else if d == 8 {
        "8"
    } else {
        "9"
    };
    proof {
        assert(r@ =~= seq![digit_char(d as nat)]);
    }
    r
}

/// The decimal representation of `n`, as positional indices are compared
/// and reported.
pub fn usize_to_string(n: usize) -> (r: String)
    ensures
        r@ == dec_str(n as nat),
    decreases n,
{
    if n < 10 {
        String::from_str(digit_literal(n))
    } else {
        let mut s = usize_to_string(n / 10);
        s.append(digit_literal(n % 10));
        proof {
            assert((n / 10) as nat == n as nat / 10);
            assert((n % 10) as nat == n as nat % 10);
            assert(s@ =~= dec_str(n as nat / 10).push(digit_char(n as nat % 10)));
        }
        s
    }
}

/// The first index at or after `i` where `p` occurs in `s`, or -1 when
/// there is none.
pub open spec fn find_at(s: Seq<char>, p: Seq<char>, i: int) -> int
    decreases s.len() + 1 - i,
{
    if i < 0 || i + p.len() > s.len() {
        -1
    } else if s.subrange(i, i + p.len() as int) == p {
        i
    } else {
        find_at(s, p, i + 1)
    }
}

/// The index of the first occurrence of `p` in `s`, or -1.
pub open spec fn find_first(s: Seq<char>, p: Seq<char>) -> int {
    find_at(s, p, 0)
}

/// The last index at or before `i` where `p` occurs in `s`, or -1 when
/// there is none.
pub open spec fn rfind_at(s: Seq<char>, p: Seq<char>, i: int) -> int
    decreases i + 1,
{
    if i < 0 {
        -1
    } else if i + p.len() <= s.len() && s.subrange(i, i + p.len() as int) == p {
        i
    } else {
        rfind_at(s, p, i - 1)
    }
}

/// The index of the last occurrence of `p` in `s`, or -1.
pub open spec fn find_last(s: Seq<char>, p: Seq<char>) -> int {
    rfind_at(s, p, s.len() - p.len())
}

/// What a non-negative find result means: an in-range match of `p`.
pub proof fn lemma_find_at_match(s: Seq<char>, p: Seq<char>, i: int)
    ensures
        find_at(s, p, i) >= 0 ==> i <= find_at(s, p, i) && find_at(s, p, i) + p.len() <= s.len()
            && s.subrange(find_at(s, p, i), find_at(s, p, i) + p.len() as int) == p,
    decreases s.len() + 1 - i,
{
    if i < 0 || i + p.len() > s.len() {
    } else if s.subrange(i, i + p.len() as int) == p {
    } else {
        lemma_find_at_match(s, p, i + 1);
    }
}

/// What a non-negative reverse-find result means: an in-range match.
pub proof fn lemma_rfind_at_match(s: Seq<char>, p: Seq<char>, i: int)
    ensures
        rfind_at(s, p, i) >= 0 ==> rfind_at(s, p, i) <= i && rfind_at(s, p, i) + p.len()
            <= s.len() && s.subrange(rfind_at(s, p, i), rfind_at(s, p, i) + p.len() as int) == p,
    decreases i + 1,
{
    if i < 0 {
    } else if i + p.len() <= s.len() && s.subrange(i, i + p.len() as int) == p {
    } else {
        lemma_rfind_at_match(s, p, i - 1);
    }
}

/// The index of the first occurrence of `p` in `s`: the flag says whether
/// one exists, and the index is meaningful only when it does.
pub fn find_first_in(s: &str, p: &str) -> (r: (bool, usize))
    ensures
        r.0 == (find_first(s@, p@) >= 0),
        r.0 ==> r.1 as int == find_first(s@, p@),
{
    let slen = s.unicode_len();
    let plen = p.unicode_len();
    if plen > slen {
        return (false, 0);
    }
    if plen == 0 {
        proof {
            assert(p@ =~= Seq::<char>::empty());
            assert(s@.subrange(0, 0) =~= p@);
            assert(find_at(s@, p@, 0) == 0);
        }
        return (true, 0);
    }
    let mut i: usize = 0;
    while i <= slen - plen
        invariant
            slen == s@.len(),
            plen == p@.len(),
            1 <= plen <= slen,
            i <= slen - plen + 1,
            find_first(s@, p@) == find_at(s@, p@, i as int),
        decreases slen + 1 - i,
    {
        let sub = s.substring_char(i, i + plen);
        if str_eq(sub, p) {
            proof {
                assert(sub@ == s@.subrange(i as int, i + plen));
                assert(find_at(s@, p@, i as int) == i);
            }
            return (true, i);
        }
        proof {
            assert(sub@ == s@.subrange(i as int, i + plen));
            assert(find_at(s@, p@, i as int) == find_at(s@, p@, i + 1));
        }
        i = i + 1;
    }
    (false, 0)
}

/// The index of the last occurrence of `p` in `s`: the flag says whether
/// one exists, and the index is meaningful only when it does.
pub fn find_last_in(s: &str, p: &str) -> (r: (bool, usize))
    ensures
        r.0 == (find_last(s@, p@) >= 0),
        r.0 ==> r.1 as int == find_last(s@, p@),
{
    let slen = s.unicode_len();
    let plen = p.unicode_len();
    if plen > slen {
        proof {
            assert(s@.len() - p@.len() < 0);
        }
        return (false, 0);
    }
    if plen == 0 {
        proof {
            assert(p@ =~= Seq::<char>::empty());
            assert(s@.subrange(s@.len() as int, s@.len() as int) =~= p@);
            assert(rfind_at(s@, p@, s@.len() as int) == s@.len());
        }
        return (true, slen);
    }
    let mut i: usize = slen - plen + 1;
    proof {
        assert(find_last(s@, p@) == rfind_at(s@, p@, i - 1));
    }
    while i > 0
        invariant
            slen == s@.len(),
            plen == p@.len(),
            plen <= slen,
            i <= slen - plen + 1,
            find_last(s@, p@) == rfind_at(s@, p@, i as int - 1),
        decreases i,
    {
        let j = i - 1;
        let sub = s.substring_char(j, j + plen);
        if str_eq(sub, p) {
            proof {
                assert(sub@ == s@.subrange(j as int, j + plen));
                assert(rfind_at(s@, p@, j as int) == j);
            }
            return (true, j);
        }
        proof {
            assert(sub@ == s@.subrange(j as int, j + plen));
            assert(rfind_at(s@, p@, j as int) == rfind_at(s@, p@, j as int - 1));
        }
        i = j;
    }
    (false, 0)
}

/// Whether `c` carries the Unicode White_Space property: these are the
/// characters trimmed from the identity file's contents.
pub open spec fn is_wsp(c: char) -> bool {
    ||| c == ' '
    ||| ('\u{09}' <= c && c <= '\u{0D}')
    ||| c == '\u{85}'
    ||| c == '\u{A0}'
    ||| c == '\u{1680}'
    ||| ('\u{2000}' <= c && c <= '\u{200A}')
    ||| c == '\u{2028}'
    ||| c == '\u{2029}'
    ||| c == '\u{202F}'
    ||| c == '\u{205F}'
    ||| c == '\u{3000}'
}

/// `s` with leading whitespace removed.
pub open spec fn trim_front(s: Seq<char>) -> Seq<char>
    decreases s.len(),
{
    if s.len() > 0 && is_wsp(s[0]) {
        trim_front(s.skip(1))
    } else {
        s
    }
}

/// `s` with trailing whitespace removed.
pub open spec fn trim_back(s: Seq<char>) -> Seq<char>
    decreases s.len(),
{
    if s.len() > 0 && is_wsp(s.last()) {
        trim_back(s.drop_last())
    } else {
        s
    }
}

/// `s` with surrounding whitespace removed.
pub open spec fn trim_ws_spec(s: Seq<char>) -> Seq<char> {
    trim_back(trim_front(s))
}

proof fn lemma_trim_front_skip(s: Seq<char>, a: int)
    requires
        0 <= a <= s.len(),
        forall|j: int| 0 <= j < a ==> is_wsp(s[j]),
        a == s.len() || !is_wsp(s[a]),
    ensures
        trim_front(s) == s.skip(a),
    decreases a,
{
    if a == 0 {
        assert(s.skip(0) =~= s);
    } else {
        let t = s.skip(1);
        assert(forall|j: int| 0 <= j < a - 1 ==> is_wsp(t[j]));
        assert(a - 1 == t.len() || !is_wsp(t[a - 1]));
        lemma_trim_front_skip(t, a - 1);
        assert(t.skip(a - 1) =~= s.skip(a));
    }
}

proof fn lemma_trim_back_take(s: Seq<char>, b: int)
    requires
        0 <= b <= s.len(),
        forall|j: int| b <= j < s.len() ==> is_wsp(s[j]),
        b == 0 || !is_wsp(s[b - 1]),
    ensures
        trim_back(s) == s.take(b),
    decreases s.len() - b,
{
    if b == s.len() {
        assert(s.take(b) =~= s);
    } else {
        let t = s.drop_last();
        assert(is_wsp(s.last()));
        assert(forall|j: int| b <= j < t.len() ==> is_wsp(t[j]));
        lemma_trim_back_take(t, b);
        assert(t.take(b) =~= s.take(b));
    }
}

/// Whether `c` is trimmed whitespace, decided in executable code.
pub fn wsp(c: char) -> (r: bool)
    ensures
        r == is_wsp(c),
{
    c == ' ' || ('\u{09}' <= c && c <= '\u{0D}') || c == '\u{85}' || c == '\u{A0}' || c
        == '\u{1680}' || ('\u{2000}' <= c && c <= '\u{200A}') || c == '\u{2028}' || c == '\u{2029}'
        || c == '\u{202F}' || c == '\u{205F}' || c == '\u{3000}'
}

/// `s` with surrounding Unicode whitespace removed, as the machine
/// identity is normalized before use.
pub fn trim_ws(s: &str) -> (r: String)
    ensures
        r@ == trim_ws_spec(s@),
{
    let len = s.unicode_len();
    let mut a: usize = 0;
    while a < len && wsp(s.get_char(a))
        invariant
            len == s@.len(),
            a <= len,
            forall|j: int| 0 <= j < a ==> is_wsp(s@[j]),
        decreases len - a,
    {
        a = a + 1;
    }
    let mut b: usize = len;
    while b > a && wsp(s.get_char(b - 1))
        invariant
            len == s@.len(),
            a <= b <= len,
            forall|j: int| 0 <= j < a ==> is_wsp(s@[j]),
            forall|j: int| b <= j < len ==> is_wsp(s@[j]),
        decreases b,
    {
        b = b - 1;
    }
    let r = String::from_str(s.substring_char(a, b));
    proof {
        lemma_trim_front_skip(s@, a as int);
        let t = s@.skip(a as int);
        assert(forall|j: int| b - a <= j < t.len() ==> is_wsp(t[j]));
        lemma_trim_back_take(t, b - a);
        assert(t.take(b - a) =~= s@.subrange(a as int, b as int));
    }
    r
}

/// Character-for-character string equality, proved against the views.
pub fn str_eq(a: &str, b: &str) -> (r: bool)
    ensures
        r == (a@ == b@),
{
    let alen = a.unicode_len();
    let blen = b.unicode_len();
    if alen != blen {
        return false;
    }
    let mut i: usize = 0;
    while i < alen
        invariant
            alen == a@.len(),
            blen == b@.len(),
            alen == blen,
            i <= alen,
            forall|j: int| 0 <= j < i ==> a@[j] == b@[j],
        decreases alen - i,
    {
        if a.get_char(i) != b.get_char(i) {
            return false;
        }
        i = i + 1;
    }
    proof {
        assert(a@ =~= b@);
    }
    true
}

/// Whether `p` is a prefix of `s`, proved against the views.
pub fn has_prefix(s: &str, p: &str) -> (r: bool)
    ensures
        r == p@.is_prefix_of(s@),
{
    let slen = s.unicode_len();
    let plen = p.unicode_len();
    if plen > slen {
        return false;
    }
    let mut i: usize = 0;
    while i < plen
        invariant
            slen == s@.len(),
            plen == p@.len(),
            plen <= slen,
            i <= plen,
            forall|j: int| 0 <= j < i ==> s@[j] == p@[j],
        decreases plen - i,
    {
        if s.get_char(i) != p.get_char(i) {
            assert(s@.subrange(0, plen as int)[i as int] == s@[i as int]);
            return false;
        }
        i = i + 1;
    }
    proof {
        assert(p@ =~= s@.subrange(0, plen as int));
    }
    true
}

/// The tokens of `s` split on every single space, as owned strings.
pub fn split_spaces(s: &str) -> (r: Vec<String>)
    ensures
        r.deep_view() == split_sp(s@),
        r.len() >= 1,
{
    let len = s.unicode_len();
    let mut tokens: Vec<String> = Vec::new();
    let mut start: usize = 0;
    let mut i: usize = 0;
    proof {
        assert(tokens.deep_view() =~= Seq::<Seq<char>>::empty());
        assert(s@.skip(0) =~= s@);
        assert(Seq::<Seq<char>>::empty() + split_sp(s@) =~= split_sp(s@));
    }
    while i < len
        invariant
            len == s@.len(),
            start <= i <= len,
            split_sp(s@) =~= tokens.deep_view() + split_sp(s@.skip(start as int)),
            forall|j: int| start <= j < i ==> s@[j] != ' ',
        decreases len - i,
    {
        if s.get_char(i) == ' ' {
            let tok = s.substring_char(start, i);
            let tok_s = String::from_str(tok);
            let ghost prev = tokens.deep_view();
            tokens.push(tok_s);
            proof {
                assert(tokens.deep_view() =~= prev.push(tok_s@));
                let tail = s@.skip(start as int);
                assert(tail[i - start] == ' ');
                lemma_split_at_space(tail, i - start);
                assert(tail.take(i - start) =~= s@.subrange(start as int, i as int));
                assert(tail.skip(i - start + 1) =~= s@.skip(i + 1));
                assert(prev.push(tok_s@) + split_sp(s@.skip(i + 1)) =~= prev + (seq![tok_s@]
                    + split_sp(s@.skip(i + 1))));
                assert(split_sp(s@) =~= tokens.deep_view() + split_sp(s@.skip(i + 1)));
            }
            start = i + 1;
        }
        i = i + 1;
    }
    let tok = s.substring_char(start, len);
    let tok_s = String::from_str(tok);
    let ghost prev = tokens.deep_view();
    tokens.push(tok_s);
    proof {
        assert(tokens.deep_view() =~= prev.push(tok_s@));
        let tail = s@.skip(start as int);
        lemma_split_whole(tail);
        assert(tok_s@ =~= tail);
        assert(prev.push(tok_s@) =~= prev + seq![tok_s@]);
        assert(tokens.deep_view() =~= split_sp(s@));
    }
    tokens
}

/// The tokens joined with one space between consecutive tokens.
pub fn join_spaces(ts: &Vec<String>) -> (r: String)
    ensures
        r@ == join_sp(ts.deep_view()),
{
    let mut out = String::new();
    let mut i: usize = 0;
    proof {
        assert(ts.deep_view().take(0) =~= Seq::<Seq<char>>::empty());
    }
    while i < ts.len()
        invariant
            i <= ts.len(),
            ts.deep_view().len() == ts.len(),
            out@ == join_sp(ts.deep_view().take(i as int)),
        decreases ts.len() - i,
    {
        if i > 0 {
            out.append(" ");
        }
        out.append(ts[i].as_str());
        proof {
            reveal_strlit(" ");
            let prefix = ts.deep_view().take(i as int);
            assert(ts.deep_view().take(i + 1) =~= prefix.push(ts.deep_view()[i as int]));
            if i > 0 {
                lemma_join_push(prefix, ts.deep_view()[i as int]);
                assert(" "@ =~= seq![' ']);
                assert(out@ =~= join_sp(prefix) + seq![' '] + ts.deep_view()[i as int]);
            } else {
                assert(prefix.push(ts.deep_view()[0]).len() == 1);
                assert(out@ =~= ts.deep_view()[0]);
            }
        }
        i = i + 1;
    }
    proof {
        assert(ts.deep_view().take(ts.len() as int) =~= ts.deep_view());
    }
    out
}

} // verus!
