use vstd::prelude::*;

verus! {

/// Appends one character to a string.
///
/// Trusted: calls `String::push`, which std documents as appending the given
/// character to the end of the string.
#[verifier::external_body]
pub(crate) fn push_char(s: &mut String, c: char)
    ensures
        final(s)@ == old(s)@.push(c),
{
    s.push(c);
}

/// The characters of `s`, in order.
pub fn chars_of(s: &str) -> (v: Vec<char>)
    ensures
        v@ == s@,
{
    let mut v: Vec<char> = Vec::new();
    for c in it: s.chars()
        invariant
            v@ == it.seq().take(it.index() as int),
    {
        v.push(c);
    }
    v
}

/// A string holding exactly the characters of `v`.
pub fn string_of(v: &Vec<char>) -> (s: String)
    ensures
        s@ == v@,
{
    let mut s = String::new();
    for i in 0..v.len()
        invariant
            s@ == v@.take(i as int),
    {
        push_char(&mut s, v[i]);
        assert(v@.take(i + 1) == v@.take(i as int).push(v@[i as int]));
    }
    assert(v@.take(v.len() as int) == v@);
    s
}

} // verus!

verus! {

// ---------------------------------------------------------------------------
// Whitespace and trimming
// ---------------------------------------------------------------------------

/// Unicode `White_Space`, the set that `char::is_whitespace` tests.
pub open spec fn is_whitespace(c: char) -> bool {
    ||| ('\t' <= c && c <= '\r')
    ||| c == ' '
    ||| c == '\u{85}'
    ||| c == '\u{a0}'
    ||| c == '\u{1680}'
    ||| ('\u{2000}' <= c && c <= '\u{200a}')
    ||| c == '\u{2028}'
    ||| c == '\u{2029}'
    ||| c == '\u{202f}'
    ||| c == '\u{205f}'
    ||| c == '\u{3000}'
}

pub fn char_is_whitespace(c: char) -> (b: bool)
    ensures
        b == is_whitespace(c),
{
    ('\t' <= c && c <= '\r') || c == ' ' || c == '\u{85}' || c == '\u{a0}' || c == '\u{1680}'
        || ('\u{2000}' <= c && c <= '\u{200a}') || c == '\u{2028}' || c == '\u{2029}'
        || c == '\u{202f}' || c == '\u{205f}' || c == '\u{3000}'
}

/// `s` without its leading whitespace.
pub open spec fn trimmed_start(s: Seq<char>) -> Seq<char>
    decreases s.len(),
{
    if s.len() > 0 && is_whitespace(s[0]) {
        trimmed_start(s.drop_first())
    } else {
        s
    }
}

/// `s` without its trailing whitespace.
pub open spec fn trimmed_end(s: Seq<char>) -> Seq<char>
    decreases s.len(),
{
    if s.len() > 0 && is_whitespace(s.last()) {
        trimmed_end(s.drop_last())
    } else {
        s
    }
}

/// `s` without leading and trailing whitespace (`str::trim`).
pub open spec fn trimmed(s: Seq<char>) -> Seq<char> {
    trimmed_end(trimmed_start(s))
}

/// The characters of `v` from `from` up to `to`.
pub fn slice_chars(v: &Vec<char>, from: usize, to: usize) -> (r: Vec<char>)
    requires
        from <= to <= v.len(),
    ensures
        r@ == v@.subrange(from as int, to as int),
{
    let mut r: Vec<char> = Vec::new();
    let mut i = from;
    while i < to
        invariant
            from <= i <= to <= v.len(),
            r@ == v@.subrange(from as int, i as int),
        decreases to - i,
    {
        r.push(v[i]);
        i += 1;
    }
    r
}

/// Appends the characters of `w` to `v`.
pub fn extend_chars(v: &mut Vec<char>, w: &Vec<char>)
    ensures
        final(v)@ == old(v)@ + w@,
{
    let ghost start = v@;
    for i in 0..w.len()
        invariant
            v@ == start + w@.take(i as int),
    {
        v.push(w[i]);
        assert(w@.take(i + 1) == w@.take(i as int).push(w@[i as int]));
    }
    assert(w@.take(w.len() as int) == w@);
}

/// `str::trim` on a sequence of characters.
pub fn trim(v: &Vec<char>) -> (r: Vec<char>)
    ensures
        r@ == trimmed(v@),
{
    let mut i: usize = 0;
    assert(v@.skip(0) == v@);
    while i < v.len() && char_is_whitespace(v[i])
        invariant
            i <= v.len(),
            trimmed_start(v@.skip(i as int)) == trimmed_start(v@),
        decreases v.len() - i,
    {
        assert(v@.skip(i as int).drop_first() == v@.skip(i + 1));
        i += 1;
    }
    let mut j: usize = v.len();
    let ghost t = v@.skip(i as int);
    assert(trimmed_start(v@) == t);
    while j > i && char_is_whitespace(v[j - 1])
        invariant
            i <= j <= v.len(),
            t == v@.skip(i as int),
            trimmed_end(v@.subrange(i as int, j as int)) == trimmed_end(t),
        decreases j,
    {
        assert(v@.subrange(i as int, j as int).drop_last() == v@.subrange(i as int, j - 1));
        j -= 1;
    }
    assert(v@.subrange(i as int, v.len() as int) == t);
    slice_chars(v, i, j)
}

// ---------------------------------------------------------------------------
// Prefixes, suffixes and substrings
// ---------------------------------------------------------------------------

pub open spec fn has_prefix(s: Seq<char>, p: Seq<char>) -> bool {
    p.len() <= s.len() && s.take(p.len() as int) == p
}

pub open spec fn has_suffix(s: Seq<char>, p: Seq<char>) -> bool {
    p.len() <= s.len() && s.skip(s.len() - p.len()) == p
}

/// Whether `p` occurs in `s` starting at index `i`.
pub open spec fn occurs_at(s: Seq<char>, p: Seq<char>, i: int) -> bool {
    0 <= i && i + p.len() <= s.len() && s.subrange(i, i + p.len()) == p
}

/// Whether `v[at..]` starts with `p`.
pub fn matches_at(v: &Vec<char>, p: &Vec<char>, at: usize) -> (b: bool)
    ensures
        b == occurs_at(v@, p@, at as int),
{
    if at > v.len() || p.len() > v.len() - at {
        return false;
    }
    let mut k: usize = 0;
    while k < p.len()
        invariant
            at + p.len() <= v.len(),
            k <= p.len(),
            forall|t: int| 0 <= t < k ==> v@[at + t] == p@[t],
        decreases p.len() - k,
    {
        if v[at + k] != p[k] {
            assert(v@.subrange(at as int, at + p.len())[k as int] != p@[k as int]);
            return false;
        }
        k += 1;
    }
    assert(v@.subrange(at as int, at + p.len()) =~= p@);
    true
}

pub fn starts_with(v: &Vec<char>, p: &Vec<char>) -> (b: bool)
    ensures
        b == has_prefix(v@, p@),
{
    let b = matches_at(v, p, 0);
    proof {
        if p@.len() <= v@.len() {
            assert(v@.subrange(0, p@.len() as int) == v@.take(p@.len() as int));
        }
    }
    b
}

pub fn ends_with(v: &Vec<char>, p: &Vec<char>) -> (b: bool)
    ensures
        b == has_suffix(v@, p@),
{
    if p.len() > v.len() {
        return false;
    }
    let b = matches_at(v, p, v.len() - p.len());
    proof {
        assert(v@.subrange(v@.len() - p@.len(), v@.len() as int) == v@.skip(v@.len() - p@.len()));
    }
    b
}

/// The first index at or after `i` where `p` occurs in `s` (`str::find` from `i`).
pub open spec fn first_match_from(s: Seq<char>, p: Seq<char>, i: int) -> Option<int>
    decreases s.len() - i,
{
    if i < 0 || i + p.len() > s.len() {
        None
    } else if p.len() == 0 || s.subrange(i, i + p.len()) == p {
        Some(i)
    } else {
        first_match_from(s, p, i + 1)
    }
}

/// The first index where `p` occurs in `s` (`str::find`).
pub open spec fn first_match(s: Seq<char>, p: Seq<char>) -> Option<int> {
    first_match_from(s, p, 0)
}

/// What `first_match_from` returns, stated without recursion.
pub proof fn lemma_first_match_from(s: Seq<char>, p: Seq<char>, i: int)
    requires
        0 <= i,
    ensures
        match first_match_from(s, p, i) {
            Some(k) => i <= k && occurs_at(s, p, k) && forall|j: int|
                i <= j < k ==> !occurs_at(s, p, j),
            None => forall|j: int| i <= j ==> !occurs_at(s, p, j),
        },
    decreases s.len() - i,
{
    if i + p.len() > s.len() {
    } else if p.len() == 0 || s.subrange(i, i + p.len()) == p {
        assert(s.subrange(i, i + p.len()) =~= p);
    } else {
        lemma_first_match_from(s, p, i + 1);
    }
}

/// `str::find`, searching from index `from`.
pub fn find_from(v: &Vec<char>, p: &Vec<char>, from: usize) -> (r: Option<usize>)
    ensures
        match r {
            Some(k) => first_match_from(v@, p@, from as int) == Some(k as int),
            None => first_match_from(v@, p@, from as int) is None,
        },
{
    let mut i = from;
    while i <= v.len() && p.len() <= v.len() - i
        invariant
            from <= i,
            first_match_from(v@, p@, from as int) == first_match_from(v@, p@, i as int),
        decreases v.len() + 1 - i,
    {
        if matches_at(v, p, i) {
            assert(v@.subrange(i as int, i + p@.len()) == p@);
            return Some(i);
        }
        assert(i < v.len()) by {
            if i == v.len() {
                assert(v@.subrange(i as int, i as int) =~= p@);
            }
        }
        assert(p@.len() != 0) by {
            if p@.len() == 0 {
                assert(v@.subrange(i as int, i as int) =~= p@);
            }
        }
        assert(first_match_from(v@, p@, i as int) == first_match_from(v@, p@, i + 1));
        i += 1;
    }
    None
}

/// `str::find`.
pub fn find(v: &Vec<char>, p: &Vec<char>) -> (r: Option<usize>)
    ensures
        match r {
            Some(k) => first_match(v@, p@) == Some(k as int),
            None => first_match(v@, p@) is None,
        },
{
    find_from(v, p, 0)
}

} // verus!

verus! {

// ---------------------------------------------------------------------------
// Lines (`str::lines`)
// ---------------------------------------------------------------------------

/// The number of characters of `s` before its first newline.
pub open spec fn line_len(s: Seq<char>) -> nat
    decreases s.len(),
{
    if s.len() == 0 {
        0
    } else if s[0] == '\n' {
        0
    } else {
        1 + line_len(s.drop_first())
    }
}

pub proof fn lemma_line_len(s: Seq<char>)
    ensures
        line_len(s) <= s.len(),
        line_len(s) < s.len() ==> s[line_len(s) as int] == '\n',
        forall|j: int| 0 <= j < line_len(s) ==> s[j] != '\n',
    decreases s.len(),
{
    if s.len() > 0 && s[0] != '\n' {
        lemma_line_len(s.drop_first());
        assert forall|j: int| 0 <= j < line_len(s) implies s[j] != '\n' by {
            if j > 0 {
                assert(s[j] == s.drop_first()[j - 1]);
            }
        }
    }
}

/// A line without the carriage return that ended it.
pub open spec fn without_cr(l: Seq<char>) -> Seq<char> {
    if l.len() > 0 && l.last() == '\r' {
        l.drop_last()
    } else {
        l
    }
}

/// The lines of `s` as `str::lines` yields them: split at `\n`, a `\r` before
/// the `\n` removed, and no empty line after a final `\n`.
pub open spec fn line_seq(s: Seq<char>) -> Seq<Seq<char>>
    decreases s.len(),
{
    if s.len() == 0 {
        seq![]
    } else if line_len(s) >= s.len() {
        seq![s]
    } else {
        seq![without_cr(s.take(line_len(s) as int))] + line_seq(s.skip(line_len(s) + 1int))
    }
}

/// The character sequences held by a sequence of vectors.
pub open spec fn views(r: Seq<Vec<char>>) -> Seq<Seq<char>> {
    r.map_values(|l: Vec<char>| l@)
}

/// `str::lines` on a sequence of characters.
pub fn split_lines(v: &Vec<char>) -> (r: Vec<Vec<char>>)
    ensures
        views(r@) == line_seq(v@),
{
    let mut r: Vec<Vec<char>> = Vec::new();
    let mut pos: usize = 0;
    assert(v@.skip(0) == v@);
    while pos < v.len()
        invariant
            pos <= v.len(),
            line_seq(v@) == views(r@) + line_seq(v@.skip(pos as int)),
        decreases v.len() - pos,
    {
        let ghost rest = v@.skip(pos as int);
        let mut j = pos;
        assert(v@.skip(j as int) == rest);
        while j < v.len() && v[j] != '\n'
            invariant
                pos <= j <= v.len(),
                rest == v@.skip(pos as int),
                line_len(rest) == (j - pos) + line_len(v@.skip(j as int)),
            decreases v.len() - j,
        {
            assert(v@.skip(j as int).drop_first() == v@.skip(j + 1));
            j += 1;
        }
        assert(line_len(v@.skip(j as int)) == 0);
        let mut line = slice_chars(v, pos, j);
        assert(line@ == rest.take(line_len(rest) as int));
        let ghost before = views(r@);
        if j == v.len() {
            assert(rest.take(line_len(rest) as int) == rest);
            r.push(line);
            pos = j;
            assert(line_seq(rest) == seq![rest]);
            assert(v@.skip(pos as int) =~= Seq::<char>::empty());
            assert(views(r@) =~= before.push(rest));
            assert(line_seq(v@) =~= views(r@) + line_seq(v@.skip(pos as int)));
        } else {
            if line.len() > 0 && line[line.len() - 1] == '\r' {
                line.pop();
            }
            let ghost l = line@;
            assert(l == without_cr(rest.take(line_len(rest) as int)));
            r.push(line);
            assert(rest.skip(line_len(rest) + 1int) == v@.skip(j + 1));
            pos = j + 1;
            assert(line_seq(rest) == seq![l] + line_seq(v@.skip(pos as int)));
            assert(views(r@) =~= before.push(l));
            assert(line_seq(v@) =~= views(r@) + line_seq(v@.skip(pos as int)));
        }
        assert(line_seq(v@) == views(r@) + line_seq(v@.skip(pos as int)));
    }
    assert(line_seq(v@.skip(pos as int)) == Seq::<Seq<char>>::empty());
    assert(views(r@) + Seq::<Seq<char>>::empty() == views(r@));
    r
}

// ---------------------------------------------------------------------------
// Repeated prefixes and suffixes, replacement
// ---------------------------------------------------------------------------

/// `str::trim_start_matches` with a string pattern: every leading copy of `p` removed.
pub open spec fn strip_prefix_runs(s: Seq<char>, p: Seq<char>) -> Seq<char>
    decreases s.len(),
{
    if p.len() > 0 && has_prefix(s, p) {
        strip_prefix_runs(s.skip(p.len() as int), p)
    } else {
        s
    }
}

/// `str::trim_end_matches` with a string pattern: every trailing copy of `p` removed.
pub open spec fn strip_suffix_runs(s: Seq<char>, p: Seq<char>) -> Seq<char>
    decreases s.len(),
{
    if p.len() > 0 && has_suffix(s, p) {
        strip_suffix_runs(s.take(s.len() - p.len()), p)
    } else {
        s
    }
}

pub fn trim_start_matches(v: &Vec<char>, p: &Vec<char>) -> (r: Vec<char>)
    ensures
        r@ == strip_prefix_runs(v@, p@),
{
    if p.len() == 0 {
        return slice_chars(v, 0, v.len());
    }
    let mut i: usize = 0;
    assert(v@.skip(0) == v@);
    while i <= v.len() && matches_at(v, p, i)
        invariant
            p@.len() > 0,
            i <= v.len(),
            strip_prefix_runs(v@, p@) == strip_prefix_runs(v@.skip(i as int), p@),
        decreases v.len() - i,
    {
        assert(v@.skip(i as int).take(p@.len() as int) == v@.subrange(i as int, i + p@.len()));
        assert(v@.skip(i as int).skip(p@.len() as int) == v@.skip(i + p@.len()));
        i += p.len();
    }
    proof {
        if i + p@.len() <= v@.len() {
            assert(v@.skip(i as int).take(p@.len() as int) == v@.subrange(i as int, i + p@.len()));
        }
    }
    slice_chars(v, i, v.len())
}

pub fn trim_end_matches(v: &Vec<char>, p: &Vec<char>) -> (r: Vec<char>)
    ensures
        r@ == strip_suffix_runs(v@, p@),
{
    if p.len() == 0 {
        return slice_chars(v, 0, v.len());
    }
    let mut j: usize = v.len();
    assert(v@.take(v.len() as int) == v@);
    while j >= p.len() && matches_at(v, p, j - p.len())
        invariant
            p@.len() > 0,
            j <= v.len(),
            strip_suffix_runs(v@, p@) == strip_suffix_runs(v@.take(j as int), p@),
        decreases j,
    {
        assert(v@.take(j as int).skip(j - p@.len()) == v@.subrange(j - p@.len(), j as int));
        assert(v@.take(j as int).take(j - p@.len()) == v@.take(j - p@.len()));
        j -= p.len();
    }
    proof {
        if p@.len() <= j {
            assert(v@.take(j as int).skip(j - p@.len()) == v@.subrange(j - p@.len(), j as int));
        }
    }
    slice_chars(v, 0, j)
}

/// `s` with every `from` replaced by `to`.
pub open spec fn replaced(s: Seq<char>, from: char, to: char) -> Seq<char> {
    s.map_values(|c: char| if c == from { to } else { c })
}

pub fn replace_char(v: &Vec<char>, from: char, to: char) -> (r: Vec<char>)
    ensures
        r@ == replaced(v@, from, to),
{
    let mut r: Vec<char> = Vec::new();
    for i in 0..v.len()
        invariant
            r@ == replaced(v@.take(i as int), from, to),
    {
        let c = v[i];
        r.push(if c == from { to } else { c });
        assert(replaced(v@.take(i + 1), from, to) =~= replaced(v@.take(i as int), from, to).push(
            if c == from { to } else { c },
        ));
    }
    assert(v@.take(v.len() as int) == v@);
    r
}

} // verus!

verus! {

// ---------------------------------------------------------------------------
// Layout: padding, rules, numbers
// ---------------------------------------------------------------------------

/// `n` copies of `c`.
pub open spec fn repeated(c: char, n: nat) -> Seq<char> {
    Seq::new(n, |i: int| c)
}

/// `s` left-aligned in a field of `width` characters, as `{:<width}` formats it.
pub open spec fn padded(s: Seq<char>, width: nat) -> Seq<char> {
    if s.len() >= width {
        s
    } else {
        s + repeated(' ', (width - s.len()) as nat)
    }
}

pub fn repeat_char(c: char, n: usize) -> (r: Vec<char>)
    ensures
        r@ == repeated(c, n as nat),
{
    let mut r: Vec<char> = Vec::new();
    for i in 0..n
        invariant
            r@ == repeated(c, i as nat),
    {
        r.push(c);
        assert(repeated(c, (i + 1) as nat) =~= repeated(c, i as nat).push(c));
    }
    r
}

pub fn pad_right(v: &Vec<char>, width: usize) -> (r: Vec<char>)
    ensures
        r@ == padded(v@, width as nat),
{
    let mut r = slice_chars(v, 0, v.len());
    assert(v@.subrange(0, v@.len() as int) == v@);
    if v.len() < width {
        let fill = repeat_char(' ', width - v.len());
        extend_chars(&mut r, &fill);
    }
    r
}

/// The decimal digit for `d < 10`.
pub open spec fn digit_char(d: nat) -> char {
    if d == 0 { '0' }
    else if d == 1 { '1' }
    else if d == 2 { '2' }
    else if d == 3 { '3' }
    else if d == 4 { '4' }
    else if d == 5 { '5' }
    else if d == 6 { '6' }
    else if d == 7 { '7' }
    else if d == 8 { '8' }
    else { '9' }
}

/// `n` written in decimal, as `{}` formats an unsigned integer.
pub open spec fn decimal(n: nat) -> Seq<char>
    decreases n,
{
    if n < 10 {
        seq![digit_char(n)]
    } else {
        decimal(n / 10).push(digit_char(n % 10))
    }
}

fn digit(d: usize) -> (c: char)
    requires
        d < 10,
    ensures
        c == digit_char(d as nat),
{
    if d == 0 { '0' }
    else if d == 1 { '1' }
    else if d == 2 { '2' }
    else if d == 3 { '3' }
    else if d == 4 { '4' }
    else if d == 5 { '5' }
    else if d == 6 { '6' }
    else if d == 7 { '7' }
    else if d == 8 { '8' }
    else { '9' }
}

pub fn to_decimal(n: usize) -> (r: Vec<char>)
    ensures
        r@ == decimal(n as nat),
    decreases n,
{
    if n < 10 {
        let mut r: Vec<char> = Vec::new();
        r.push(digit(n));
        r
    } else {
        let mut r = to_decimal(n / 10);
        r.push(digit(n % 10));
        r
    }
}

// ---------------------------------------------------------------------------
// UTF-8 length (`str::len`)
// ---------------------------------------------------------------------------

/// The number of bytes UTF-8 takes for `c`.
pub open spec fn utf8_width(c: char) -> nat {
    if (c as u32) < 0x80 {
        1
    } else if (c as u32) < 0x800 {
        2
    } else if (c as u32) < 0x10000 {
        3
    } else {
        4
    }
}

/// The number of bytes UTF-8 takes for `s`.
pub open spec fn utf8_len(s: Seq<char>) -> nat
    decreases s.len(),
{
    if s.len() == 0 {
        0
    } else {
        utf8_len(s.drop_last()) + utf8_width(s.last())
    }
}

proof fn lemma_utf8_len_prefix(s: Seq<char>, k: int)
    requires
        0 <= k <= s.len(),
    ensures
        utf8_len(s.take(k)) <= utf8_len(s),
    decreases s.len(),
{
    if k < s.len() {
        assert(s.drop_last().take(k) == s.take(k));
        lemma_utf8_len_prefix(s.drop_last(), k);
    } else {
        assert(s.take(k) == s);
    }
}

/// Whether `v` takes more than `n` bytes in UTF-8.
pub fn utf8_len_exceeds(v: &Vec<char>, n: usize) -> (b: bool)
    ensures
        b == (utf8_len(v@) > n),
{
    let mut acc: usize = 0;
    assert(v@.take(0) =~= Seq::<char>::empty());
    for i in 0..v.len()
        invariant
            acc == utf8_len(v@.take(i as int)),
            acc <= n,
    {
        let c = v[i];
        let w: usize = if (c as u32) < 0x80 {
            1
        } else if (c as u32) < 0x800 {
            2
        } else if (c as u32) < 0x10000 {
            3
        } else {
            4
        };
        assert(v@.take(i + 1).drop_last() == v@.take(i as int));
        if w > n - acc {
            proof {
                lemma_utf8_len_prefix(v@, i + 1);
            }
            return true;
        }
        acc += w;
    }
    assert(v@.take(v.len() as int) == v@);
    false
}

} // verus!

verus! {

/// Whether `a` and `b` hold the same characters.
pub fn same_chars(a: &Vec<char>, b: &Vec<char>) -> (r: bool)
    ensures
        r == (a@ == b@),
{
    if a.len() != b.len() {
        return false;
    }
    let r = matches_at(a, b, 0);
    assert(a@.subrange(0, a@.len() as int) == a@);
    r
}

} // verus!

verus! {

/// The character sequences held by a sequence of strings.
pub open spec fn string_views(v: Seq<String>) -> Seq<Seq<char>> {
    v.map_values(|s: String| s@)
}

} // verus!

verus! {

/// Each of `v` with `p` put before it.
pub open spec fn prefixed(p: Seq<char>, v: Seq<Seq<char>>) -> Seq<Seq<char>> {
    v.map_values(|e: Seq<char>| p + e)
}

/// Appends to `out` each string of `v` with `p` put before it.
pub fn push_prefixed(out: &mut Vec<String>, p: &str, v: &Vec<String>)
    ensures
        string_views(final(out)@) == string_views(old(out)@) + prefixed(p@, string_views(v@)),
{
    let ghost start = string_views(out@);
    let pc = chars_of(p);
    for i in 0..v.len()
        invariant
            pc@ == p@,
            string_views(out@) == start + prefixed(p@, string_views(v@).take(i as int)),
    {
        let mut line = pc.clone();
        assert(line@ =~= pc@);
        extend_chars(&mut line, &chars_of(v[i].as_str()));
        let ghost old_out = out@;
        out.push(string_of(&line));
        assert(string_views(out@) =~= string_views(old_out).push(line@));
        assert(prefixed(p@, string_views(v@).take(i + 1)) =~= prefixed(
            p@,
            string_views(v@).take(i as int),
        ).push(p@ + v@[i as int]@));
    }
    assert(string_views(v@).take(v.len() as int) == string_views(v@));
}

} // verus!

verus! {

/// Appends `v` left-aligned in `width` characters, then a space.
pub fn push_cell(out: &mut Vec<char>, v: &Vec<char>, width: usize)
    ensures
        final(out)@ == old(out)@ + padded(v@, width as nat) + seq![' '],
{
    let cell = pad_right(v, width);
    extend_chars(out, &cell);
    out.push(' ');
}

} // verus!

verus! {

/// The first match of `p` in `s` is at `k` when `p` occurs there and nowhere before.
pub proof fn lemma_first_match_is(s: Seq<char>, p: Seq<char>, k: int)
    requires
        occurs_at(s, p, k),
        forall|j: int| 0 <= j < k ==> !occurs_at(s, p, j),
    ensures
        first_match(s, p) == Some(k),
{
    lemma_first_match_from(s, p, 0);
}

/// `p` does not occur in `s` when one of its characters occurs nowhere in `s`
/// at a position where it could be part of a match.
pub proof fn lemma_no_match_for_missing_char(s: Seq<char>, p: Seq<char>, m: int, limit: int)
    requires
        0 <= m < p.len(),
        forall|i: int| 0 <= i < limit + m && i < s.len() ==> s[i] != p[m],
    ensures
        forall|j: int| 0 <= j < limit ==> !occurs_at(s, p, j),
{
    assert forall|j: int| 0 <= j < limit implies !occurs_at(s, p, j) by {
        if occurs_at(s, p, j) {
            assert(s.subrange(j, j + p.len())[m] == p[m]);
        }
    }
}

/// A string whose first and last characters are not whitespace is its own trim.
pub proof fn lemma_trimmed_unchanged(s: Seq<char>)
    requires
        s.len() > 0,
        !is_whitespace(s[0]),
        !is_whitespace(s.last()),
    ensures
        trimmed(s) == s,
{
}

/// Removing trailing copies of a pattern leaves a prefix.
pub proof fn lemma_strip_suffix_runs_prefix(s: Seq<char>, p: Seq<char>)
    ensures
        strip_suffix_runs(s, p).len() <= s.len(),
        strip_suffix_runs(s, p) == s.take(strip_suffix_runs(s, p).len() as int),
    decreases s.len(),
{
    if p.len() > 0 && has_suffix(s, p) {
        let t = s.take(s.len() - p.len());
        lemma_strip_suffix_runs_prefix(t, p);
        assert(t.take(strip_suffix_runs(t, p).len() as int) == s.take(
            strip_suffix_runs(t, p).len() as int,
        ));
    } else {
        assert(s.take(s.len() as int) == s);
    }
}

} // verus!

verus! {

proof fn lemma_line_len_append(a: Seq<char>, y: Seq<char>)
    ensures
        line_len(a) < a.len() ==> line_len(a + y) == line_len(a),
        line_len(a) >= a.len() ==> line_len(a + y) == a.len() + line_len(y),
    decreases a.len(),
{
    lemma_line_len(a);
    if a.len() == 0 {
        assert(a + y =~= y);
    } else if a[0] == '\n' {
        assert((a + y)[0] == '\n');
    } else {
        assert((a + y).drop_first() =~= a.drop_first() + y);
        lemma_line_len_append(a.drop_first(), y);
        assert((a + y)[0] == a[0]);
    }
}

/// Law of `str::lines`: what follows a newline is split on its own.
pub proof fn lemma_line_seq_after_newline(a: Seq<char>, x: Seq<char>)
    ensures
        line_seq(a + seq!['\n'] + x) == line_seq(a + seq!['\n']) + line_seq(x),
    decreases a.len(),
{
    let s = a + seq!['\n'] + x;
    let an = a + seq!['\n'];
    lemma_line_len(a);
    lemma_line_len_append(a, seq!['\n'] + x);
    lemma_line_len_append(a, seq!['\n']);
    assert(s =~= a + (seq!['\n'] + x));
    assert(line_len(seq!['\n'] + x) == 0);
    assert(line_len(seq!['\n']) == 0);
    let n = line_len(a);
    if n < a.len() {
        let rest = a.skip(n + 1int);
        assert(s.take(n as int) =~= a.take(n as int));
        assert(an.take(n as int) =~= a.take(n as int));
        assert(s.skip(n + 1int) =~= rest + seq!['\n'] + x);
        assert(an.skip(n + 1int) =~= rest + seq!['\n']);
        lemma_line_seq_after_newline(rest, x);
        assert(line_seq(s) =~= line_seq(an) + line_seq(x));
    } else {
        assert(s.take(n as int) =~= a);
        assert(an.take(n as int) =~= a);
        assert(s.skip(n + 1int) =~= x);
        assert(an.skip(n + 1int) =~= Seq::<char>::empty());
        assert(line_len(an) == n);
        assert(line_seq(an.skip(n + 1int)) =~= Seq::<Seq<char>>::empty());
        assert(line_seq(an) =~= seq![without_cr(a)]);
        assert(line_seq(s) =~= line_seq(an) + line_seq(x));
    }
}

/// The lines of text holding no newline, followed by one, are that text alone.
pub proof fn lemma_line_seq_single(a: Seq<char>)
    requires
        forall|i: int| 0 <= i < a.len() ==> a[i] != '\n',
    ensures
        line_seq(a + seq!['\n']) == seq![without_cr(a)],
{
    lemma_line_seq_after_newline(a, Seq::<char>::empty());
    assert(a + seq!['\n'] + Seq::<char>::empty() =~= a + seq!['\n']);
    lemma_line_len_append(a, seq!['\n']);
    assert(line_len(a) >= a.len()) by {
        lemma_line_len(a);
        if line_len(a) < a.len() {
            assert(a[line_len(a) as int] == '\n');
        }
    }
    assert((a + seq!['\n']).take(a.len() as int) =~= a);
    assert((a + seq!['\n']).skip(a.len() + 1int) =~= Seq::<char>::empty());
}

proof fn lemma_trimmed_start_is_suffix(l: Seq<char>) -> (x: int)
    ensures
        0 <= x <= l.len(),
        trimmed_start(l) == l.skip(x),
    decreases l.len(),
{
    if l.len() > 0 && is_whitespace(l[0]) {
        let y = lemma_trimmed_start_is_suffix(l.drop_first());
        assert(l.drop_first().skip(y) =~= l.skip(y + 1));
        y + 1
    } else {
        assert(l.skip(0) =~= l);
        0
    }
}

proof fn lemma_trimmed_end_is_prefix(l: Seq<char>) -> (y: int)
    ensures
        0 <= y <= l.len(),
        trimmed_end(l) == l.take(y),
    decreases l.len(),
{
    if l.len() > 0 && is_whitespace(l.last()) {
        let y = lemma_trimmed_end_is_prefix(l.drop_last());
        assert(l.drop_last().take(y) =~= l.take(y));
        y
    } else {
        assert(l.take(l.len() as int) =~= l);
        l.len() as int
    }
}

/// A line whose trim is `h` holds `h`.
proof fn lemma_trimmed_occurs(l: Seq<char>, h: Seq<char>) -> (q: int)
    requires
        trimmed(l) == h,
    ensures
        occurs_at(l, h, q),
{
    let x = lemma_trimmed_start_is_suffix(l);
    let u = l.skip(x);
    let y = lemma_trimmed_end_is_prefix(u);
    assert(l.subrange(x, x + y) =~= u.take(y));
    x
}

/// When a line of `s` trims to `h` (which holds no newline), `h` occurs in `s`.
pub proof fn lemma_trimmed_line_occurs(s: Seq<char>, k: int, h: Seq<char>) -> (q: int)
    requires
        0 <= k < line_seq(s).len(),
        trimmed(line_seq(s)[k]) == h,
    ensures
        occurs_at(s, h, q),
    decreases s.len(),
{
    lemma_line_len(s);
    let n = line_len(s);
    if n >= s.len() {
        lemma_trimmed_occurs(s, h)
    } else if k == 0 {
        let l = without_cr(s.take(n as int));
        let q = lemma_trimmed_occurs(l, h);
        assert(s.subrange(q, q + h.len()) =~= l.subrange(q, q + h.len()));
        q
    } else {
        let rest = s.skip(n + 1int);
        assert(line_seq(s)[k] == line_seq(rest)[k - 1]);
        let q = lemma_trimmed_line_occurs(rest, k - 1, h);
        assert(s.subrange(q + n + 1, q + n + 1 + h.len()) =~= rest.subrange(q, q + h.len()));
        q + n + 1
    }
}

/// `h` (holding no newline) occurs in `a` followed by a newline only where it
/// occurs in `a`.
pub proof fn lemma_occurs_before_newline(a: Seq<char>, h: Seq<char>, q: int)
    requires
        occurs_at(a + seq!['\n'], h, q),
        h.len() > 0,
        forall|i: int| 0 <= i < h.len() ==> h[i] != '\n',
    ensures
        occurs_at(a, h, q),
{
    let s = a + seq!['\n'];
    if q + h.len() > a.len() {
        let m = a.len() - q;
        assert(0 <= m < h.len());
        assert(s[a.len() as int] == '\n');
        assert(h[m] == s.subrange(q, q + h.len())[m]);
        assert(s.subrange(q, q + h.len())[m] == s[q + m]);
        assert(false);
    }
    assert(a.subrange(q, q + h.len()) =~= s.subrange(q, q + h.len()));
}

} // verus!

verus! {

/// Text that ends in a newline is split apart from what follows it.
pub proof fn lemma_line_seq_after_line(a: Seq<char>, z: Seq<char>)
    requires
        a.len() > 0,
        a.last() == '\n',
    ensures
        line_seq(a + z) == line_seq(a) + line_seq(z),
{
    let p = a.drop_last();
    assert(p + seq!['\n'] =~= a);
    lemma_line_seq_after_newline(p, z);
}

/// Adding a final newline to text that lacks one changes only its last line,
/// which loses a trailing carriage return.
pub proof fn lemma_line_seq_add_newline(c: Seq<char>)
    requires
        c.len() > 0,
        c.last() != '\n',
    ensures
        line_seq(c).len() > 0,
        line_seq(c + seq!['\n']).len() == line_seq(c).len(),
        line_seq(c + seq!['\n']).drop_last() == line_seq(c).drop_last(),
        line_seq(c + seq!['\n']).last() == without_cr(line_seq(c).last()),
    decreases c.len(),
{
    lemma_line_len(c);
    let n = line_len(c);
    let cn = c + seq!['\n'];
    if n < c.len() {
        assert(n < c.len() - 1);
        let rest = c.skip(n + 1int);
        assert(rest.last() == c.last());
        lemma_line_seq_add_newline(rest);
        lemma_line_len_append(c, seq!['\n']);
        assert(cn.take(n as int) =~= c.take(n as int));
        assert(cn.skip(n + 1int) =~= rest + seq!['\n']);
        let first = without_cr(c.take(n as int));
        assert(line_seq(c) == seq![first] + line_seq(rest));
        assert(line_seq(cn) == seq![first] + line_seq(rest + seq!['\n']));
        let l1 = line_seq(rest);
        let l2 = line_seq(rest + seq!['\n']);
        assert((seq![first] + l1).drop_last() =~= seq![first] + l1.drop_last());
        assert((seq![first] + l2).drop_last() =~= seq![first] + l2.drop_last());
        assert(line_seq(cn).drop_last() =~= line_seq(c).drop_last());
    } else {
        assert forall|i: int| 0 <= i < c.len() implies c[i] != '\n' by {}
        lemma_line_seq_single(c);
        assert(line_seq(c) == seq![c]);
        assert(line_seq(cn).drop_last() =~= line_seq(c).drop_last());
    }
}

/// Dropping trailing whitespace does not change the trim.
pub proof fn lemma_trimmed_drop_whitespace_last(x: Seq<char>)
    requires
        x.len() > 0,
        is_whitespace(x.last()),
    ensures
        trimmed(x.drop_last()) == trimmed(x),
    decreases x.len(),
{
    if x.len() == 1 {
        assert(x.drop_last() =~= Seq::<char>::empty());
        assert(trimmed_start(x.drop_first()) == x.drop_first());
    } else if is_whitespace(x[0]) {
        assert(x.drop_last().drop_first() =~= x.drop_first().drop_last());
        assert(x.drop_first().last() == x.last());
        lemma_trimmed_drop_whitespace_last(x.drop_first());
    } else {
        assert(x.drop_last()[0] == x[0]);
    }
}

/// A trailing carriage return does not change the trim.
pub proof fn lemma_trimmed_without_cr(x: Seq<char>)
    ensures
        trimmed(without_cr(x)) == trimmed(x),
{
    if x.len() > 0 && x.last() == '\r' {
        lemma_trimmed_drop_whitespace_last(x);
    }
}

} // verus!
