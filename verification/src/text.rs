//! Character-level text primitives the readers and renderers share:
//! the mathematical model (sequences of `char`) beside the executable
//! scans that meet it. Every reader of a document, a table or a
//! source slice goes through these.

use vstd::multiset::Multiset;
use vstd::prelude::*;

verus! {

/// Text as its characters.
pub type Chars = Seq<char>;

pub open spec fn is_digit(c: char) -> bool {
    '0' <= c && c <= '9'
}

pub open spec fn is_lower(c: char) -> bool {
    'a' <= c && c <= 'z'
}

pub open spec fn is_upper(c: char) -> bool {
    'A' <= c && c <= 'Z'
}

pub open spec fn is_alpha(c: char) -> bool {
    is_lower(c) || is_upper(c)
}

pub open spec fn is_alnum(c: char) -> bool {
    is_alpha(c) || is_digit(c)
}

/// `char::is_whitespace`: the Unicode White_Space property.
pub open spec fn is_space(c: char) -> bool {
    ||| '\u{9}' <= c && c <= '\u{d}'
    ||| c == ' '
    ||| c == '\u{85}'
    ||| c == '\u{a0}'
    ||| c == '\u{1680}'
    ||| '\u{2000}' <= c && c <= '\u{200a}'
    ||| c == '\u{2028}'
    ||| c == '\u{2029}'
    ||| c == '\u{202f}'
    ||| c == '\u{205f}'
    ||| c == '\u{3000}'
}

pub open spec fn lower(c: char) -> char {
    if is_upper(c) {
        ((c as u32) + 32) as char
    } else {
        c
    }
}

pub open spec fn upper(c: char) -> char {
    if is_lower(c) {
        ((c as u32) - 32) as char
    } else {
        c
    }
}

pub fn digit(c: char) -> (b: bool)
    ensures
        b == is_digit(c),
{
    '0' <= c && c <= '9'
}

pub fn alpha(c: char) -> (b: bool)
    ensures
        b == is_alpha(c),
{
    ('a' <= c && c <= 'z') || ('A' <= c && c <= 'Z')
}

pub fn alnum(c: char) -> (b: bool)
    ensures
        b == is_alnum(c),
{
    alpha(c) || digit(c)
}

pub fn space(c: char) -> (b: bool)
    ensures
        b == is_space(c),
{
    ('\u{9}' <= c && c <= '\u{d}') || c == ' ' || c == '\u{85}' || c == '\u{a0}' || c
        == '\u{1680}' || ('\u{2000}' <= c && c <= '\u{200a}') || c == '\u{2028}' || c
        == '\u{2029}' || c == '\u{202f}' || c == '\u{205f}' || c == '\u{3000}'
}

pub fn to_lower(c: char) -> (d: char)
    ensures
        d == lower(c),
{
    if 'A' <= c && c <= 'Z' {
        let n: u32 = (c as u32) + 32;
        assert(0x61 <= n <= 0x7a);
        char_of_ascii(n)
    } else {
        c
    }
}

pub fn to_upper(c: char) -> (d: char)
    ensures
        d == upper(c),
{
    if 'a' <= c && c <= 'z' {
        let n: u32 = (c as u32) - 32;
        char_of_ascii(n)
    } else {
        c
    }
}

/// The ASCII character of a code below 128.
pub fn char_of_ascii(n: u32) -> (c: char)
    requires
        n < 128,
    ensures
        c == n as char,
        c as u32 == n,
{
    let b: u8 = n as u8;
    b as char
}

/// The characters of `s`.
pub fn chars_of(s: &str) -> (v: Vec<char>)
    ensures
        v@ == s@,
{
    let n = s.unicode_len();
    let mut v: Vec<char> = Vec::new();
    let mut i: usize = 0;
    while i < n
        invariant
            n == s@.len(),
            i <= n,
            v@ == s@.take(i as int),
        decreases n - i,
    {
        v.push(s.get_char(i));
        i += 1;
    }
    assert(s@.take(n as int) == s@);
    v
}

/// The string of the characters in `v`.
#[verifier::external_body]
pub fn string_of(v: &[char]) -> (s: String)
    ensures
        s@ == v@,
{
    v.iter().collect()
}

/// `pat` occurs in `s` at `i`.
pub open spec fn at(s: Chars, pat: Chars, i: int) -> bool {
    0 <= i && i + pat.len() <= s.len() && s.subrange(i, i + pat.len()) == pat
}

/// The first occurrence of `pat` in `s` at or after `from`.
pub open spec fn find_from(s: Chars, pat: Chars, from: int) -> Option<int>
    decreases s.len() + 1 - from,
{
    if from < 0 || from + pat.len() > s.len() {
        None
    } else if at(s, pat, from) {
        Some(from)
    } else {
        find_from(s, pat, from + 1)
    }
}

pub open spec fn find(s: Chars, pat: Chars) -> Option<int> {
    find_from(s, pat, 0)
}

pub proof fn lemma_find_from(s: Chars, pat: Chars, from: int)
    requires
        0 <= from,
    ensures
        match find_from(s, pat, from) {
            Some(i) => from <= i && at(s, pat, i) && forall|j: int|
                from <= j < i ==> !at(s, pat, j),
            None => forall|j: int| from <= j ==> !at(s, pat, j),
        },
    decreases s.len() + 1 - from,
{
    if from + pat.len() > s.len() {
    } else if at(s, pat, from) {
    } else {
        lemma_find_from(s, pat, from + 1);
        assert forall|j: int| from <= j implies !at(s, pat, j) || find_from(s, pat, from) is Some by {}
    }
}

/// The first occurrence of `pat` in `s` is where `pat` sits with no
/// earlier occurrence.
pub proof fn lemma_find_first(s: Chars, pat: Chars, i: int)
    requires
        at(s, pat, i),
        forall|j: int| 0 <= j < i ==> !at(s, pat, j),
    ensures
        find_from(s, pat, 0) == Some(i),
{
    lemma_find_from(s, pat, 0);
}

/// Two texts that agree up to the end of the first occurrence of `pat`
/// in one have it first at the same place.
pub proof fn lemma_find_agree(s1: Chars, s2: Chars, pat: Chars, i: int)
    requires
        find_from(s1, pat, 0) == Some(i),
        i + pat.len() <= s2.len(),
        s1.take(i + pat.len()) == s2.take(i + pat.len()),
    ensures
        find_from(s2, pat, 0) == Some(i),
{
    lemma_find_from(s1, pat, 0);
    let n = i + pat.len();
    assert forall|j: int| 0 <= j <= i implies at(s1, pat, j) == at(s2, pat, j) by {
        assert forall|k: int| j <= k < j + pat.len() implies s1[k] == s2[k] by {
            assert(s1.take(n)[k] == s2.take(n)[k]);
        }
        assert(s1.subrange(j, j + pat.len()) =~= s2.subrange(j, j + pat.len()));
    }
    lemma_find_first(s2, pat, i);
}

/// Replacing an occurrence of `pat` in a text that never holds the first
/// character of `pat` leaves the text as it is.
pub proof fn lemma_replace_absent(s: Chars, pat: Chars, rep: Chars, i: int)
    requires
        0 <= i <= s.len(),
        pat.len() > 0,
        forall|k: int| 0 <= k < s.len() ==> s[k] != pat[0],
    ensures
        replace_from(s, pat, rep, i) == s.skip(i),
{
    lemma_find_from(s, pat, i);
    if let Some(j) = find_from(s, pat, i) {
        assert(s.subrange(j, j + pat.len())[0] == s[j]);
    }
}

/// Whether `pat` sits in `s` at `i`.
pub fn matches_at(s: &[char], pat: &[char], i: usize) -> (b: bool)
    ensures
        b == at(s@, pat@, i as int),
{
    let n = s.len();
    if i > n || pat.len() > n - i {
        return false;
    }
    let mut k: usize = 0;
    while k < pat.len()
        invariant
            n == s@.len(),
            i + pat@.len() <= n,
            k <= pat@.len(),
            forall|j: int| 0 <= j < k ==> s@[i + j] == pat@[j],
        decreases pat.len() - k,
    {
        assert(i + k < s@.len());
        if s[i + k] != pat[k] {
            assert(s@.subrange(i as int, i + pat@.len())[k as int] != pat@[k as int]);
            return false;
        }
        k += 1;
    }
    assert(s@.subrange(i as int, i + pat@.len()) =~= pat@);
    true
}

/// The first occurrence of `pat` at or after `from`.
pub fn find_at(s: &[char], pat: &[char], from: usize) -> (r: Option<usize>)
    ensures
        r == (match find_from(s@, pat@, from as int) {
            Some(i) => Some(i as usize),
            None => None,
        }),
        r matches Some(i) ==> i + pat@.len() <= s@.len(),
{
    let mut i = from;
    while i <= s.len() && pat.len() <= s.len() - i
        invariant
            from <= i,
            find_from(s@, pat@, from as int) == find_from(s@, pat@, i as int),
        decreases s.len() + 1 - i,
    {
        if matches_at(s, pat, i) {
            return Some(i);
        }
        if i == s.len() {
            assert(find_from(s@, pat@, i + 1) is None);
            return None;
        }
        i += 1;
    }
    None
}

/// The first index of `c` in `s`, at or after `from`.
pub open spec fn index_from(s: Chars, c: char, from: int) -> Option<int>
    decreases s.len() - from,
{
    if from < 0 || from >= s.len() {
        None
    } else if s[from] == c {
        Some(from)
    } else {
        index_from(s, c, from + 1)
    }
}

pub proof fn lemma_index_from(s: Chars, c: char, from: int)
    requires
        0 <= from,
    ensures
        match index_from(s, c, from) {
            Some(i) => from <= i < s.len() && s[i] == c && forall|j: int|
                from <= j < i ==> s[j] != c,
            None => forall|j: int| from <= j < s.len() ==> s[j] != c,
        },
    decreases s.len() - from,
{
    if from < s.len() && s[from] != c {
        lemma_index_from(s, c, from + 1);
    }
}

/// The pieces of `s` between the separators `c` (`str::split` by a char).
pub open spec fn split(s: Chars, c: char) -> Seq<Chars>
    decreases s.len(),
{
    if s.len() == 0 {
        seq![Seq::<char>::empty()]
    } else if s[0] == c {
        seq![Seq::<char>::empty()] + split(s.drop_first(), c)
    } else {
        let r = split(s.drop_first(), c);
        r.update(0, seq![s[0]] + r[0])
    }
}

pub proof fn lemma_split_nonempty(s: Chars, c: char)
    ensures
        split(s, c).len() >= 1,
    decreases s.len(),
{
    if s.len() > 0 {
        lemma_split_nonempty(s.drop_first(), c);
    }
}

/// `r` with `p` prepended to its first piece.
pub open spec fn onto_first(p: Chars, r: Seq<Chars>) -> Seq<Chars> {
    r.update(0, p + r[0])
}

/// The pieces of `s` split by `c`.
pub fn split_char(s: &[char], c: char) -> (out: Vec<Vec<char>>)
    ensures
        out@.map_values(|p: Vec<char>| p@) == split(s@, c),
{
    let mut out: Vec<Vec<char>> = Vec::new();
    let mut cur: Vec<char> = Vec::new();
    let mut i: usize = 0;
    proof {
        lemma_split_nonempty(s@, c);
        assert(s@.skip(0) =~= s@);
        assert(onto_first(cur@, split(s@, c)) =~= split(s@, c));
    }
    while i < s.len()
        invariant
            i <= s@.len(),
            split(s@, c) == out@.map_values(|p: Vec<char>| p@) + onto_first(
                cur@,
                split(s@.skip(i as int), c),
            ),
        decreases s.len() - i,
    {
        let ghost rest = s@.skip(i as int);
        proof {
            assert(rest.drop_first() =~= s@.skip(i + 1));
            lemma_split_nonempty(rest.drop_first(), c);
        }
        if s[i] == c {
            let ghost old_out = out@.map_values(|p: Vec<char>| p@);
            let ghost old_cur = cur@;
            out.push(cur);
            cur = Vec::new();
            proof {
                assert(out@.map_values(|p: Vec<char>| p@) =~= old_out.push(old_cur));
                let r = split(s@.skip(i + 1), c);
                assert(split(rest, c) =~= seq![Seq::<char>::empty()] + r);
                assert(onto_first(old_cur, split(rest, c)) =~= seq![old_cur] + r);
                assert(onto_first(cur@, r) =~= r);
                assert(old_out + (seq![old_cur] + r) =~= old_out.push(old_cur) + r);
            }
        } else {
            let ghost old_cur = cur@;
            cur.push(s[i]);
            proof {
                let r = split(s@.skip(i + 1), c);
                assert(rest[0] == s@[i as int]);
                assert(split(rest, c) == r.update(0, seq![rest[0]] + r[0]));
                assert(old_cur + (seq![rest[0]] + r[0]) =~= cur@ + r[0]);
                assert(onto_first(old_cur, split(rest, c)) =~= onto_first(cur@, r));
            }
        }
        i += 1;
    }
    let ghost before = out@.map_values(|p: Vec<char>| p@);
    let ghost last = cur@;
    proof {
        assert(s@.skip(i as int) =~= Seq::<char>::empty());
        assert(onto_first(last, split(Seq::<char>::empty(), c)) =~= seq![last]);
    }
    out.push(cur);
    proof {
        assert(out@.map_values(|p: Vec<char>| p@) =~= before.push(last));
    }
    out
}

/// `str::lines`: the pieces between newlines, each piece that a
/// newline ends without one trailing `\r`, and no empty piece after a
/// final newline; a last piece that no newline ends is kept as it is.
pub open spec fn lines(s: Chars) -> Seq<Chars> {
    let parts = split(s, '\n');
    let ended = parts.drop_last().map_values(|p: Chars| strip_cr(p));
    if parts.last().len() == 0 {
        ended
    } else {
        ended.push(parts.last())
    }
}

pub open spec fn strip_cr(p: Chars) -> Chars {
    if p.len() > 0 && p.last() == '\r' {
        p.drop_last()
    } else {
        p
    }
}

/// The lines of `s`.
pub fn lines_of(s: &[char]) -> (out: Vec<Vec<char>>)
    ensures
        out@.map_values(|p: Vec<char>| p@) == lines(s@),
{
    let parts = split_char(s, '\n');
    proof {
        lemma_split_nonempty(s@, '\n');
    }
    let ghost model = parts@.map_values(|p: Vec<char>| p@);
    let n = parts.len() - 1;
    let ghost ended = model.drop_last();
    let mut out: Vec<Vec<char>> = Vec::new();
    let mut i: usize = 0;
    while i < n
        invariant
            n + 1 == parts@.len(),
            model == parts@.map_values(|p: Vec<char>| p@),
            ended == model.drop_last(),
            i <= n,
            out@.map_values(|p: Vec<char>| p@) == ended.take(i as int).map_values(
                |p: Chars| strip_cr(p),
            ),
        decreases n - i,
    {
        let p = &parts[i];
        let mut q: Vec<char> = p.clone();
        if q.len() > 0 && q[q.len() - 1] == '\r' {
            q.pop();
        }
        proof {
            assert(ended[i as int] == p@);
            assert(q@ == strip_cr(p@));
        }
        let ghost before = out@.map_values(|p: Vec<char>| p@);
        out.push(q);
        proof {
            assert(out@.map_values(|p: Vec<char>| p@) =~= before.push(q@));
            assert(ended.take(i + 1).map_values(|p: Chars| strip_cr(p)) =~= ended.take(
                i as int,
            ).map_values(|p: Chars| strip_cr(p)).push(strip_cr(ended[i as int])));
        }
        i += 1;
    }
    assert(ended.take(n as int) =~= ended);
    if parts[n].len() > 0 {
        let ghost before = out@.map_values(|p: Vec<char>| p@);
        let last = parts[n].clone();
        assert(last@ == model.last());
        out.push(last);
        assert(out@.map_values(|p: Vec<char>| p@) =~= before.push(model.last()));
    }
    out
}

/// The characters of `s` from the first one not in the class on.
pub open spec fn skip_while(s: Chars, pred: spec_fn(char) -> bool) -> Chars
    decreases s.len(),
{
    if s.len() > 0 && pred(s[0]) {
        skip_while(s.drop_first(), pred)
    } else {
        s
    }
}

/// `s` without the characters of the class at its end.
pub open spec fn drop_while_end(s: Chars, pred: spec_fn(char) -> bool) -> Chars
    decreases s.len(),
{
    if s.len() > 0 && pred(s.last()) {
        drop_while_end(s.drop_last(), pred)
    } else {
        s
    }
}

/// Both ends stripped of the class.
pub open spec fn trim_by(s: Chars, pred: spec_fn(char) -> bool) -> Chars {
    drop_while_end(skip_while(s, pred), pred)
}

pub open spec fn ws() -> spec_fn(char) -> bool {
    |c: char| is_space(c)
}

/// `str::trim`.
pub open spec fn trim(s: Chars) -> Chars {
    trim_by(s, ws())
}

/// The index where the class stops at the front of `s[from..]`.
pub open spec fn front_end(s: Chars, pred: spec_fn(char) -> bool, from: int) -> int
    decreases s.len() - from,
{
    if 0 <= from < s.len() && pred(s[from]) {
        front_end(s, pred, from + 1)
    } else {
        from
    }
}

pub proof fn lemma_skip_while(s: Chars, pred: spec_fn(char) -> bool, from: int)
    requires
        0 <= from <= s.len(),
    ensures
        from <= front_end(s, pred, from) <= s.len(),
        skip_while(s.skip(from), pred) == s.skip(front_end(s, pred, from)),
    decreases s.len() - from,
{
    if from < s.len() && pred(s[from]) {
        assert(s.skip(from).drop_first() =~= s.skip(from + 1));
        lemma_skip_while(s, pred, from + 1);
    }
}

/// The index where the class stops at the back of `s[..to]`.
pub open spec fn back_end(s: Chars, pred: spec_fn(char) -> bool, to: int) -> int
    decreases to,
{
    if 0 < to <= s.len() && pred(s[to - 1]) {
        back_end(s, pred, to - 1)
    } else {
        to
    }
}

pub proof fn lemma_drop_while_end(s: Chars, pred: spec_fn(char) -> bool, to: int)
    requires
        0 <= to <= s.len(),
    ensures
        0 <= back_end(s, pred, to) <= to,
        drop_while_end(s.take(to), pred) == s.take(back_end(s, pred, to)),
    decreases to,
{
    if 0 < to && pred(s[to - 1]) {
        assert(s.take(to).drop_last() =~= s.take(to - 1));
        lemma_drop_while_end(s, pred, to - 1);
    }
}

/// `str::trim`.
pub fn trim_chars(s: &[char]) -> (out: Vec<char>)
    ensures
        out@ == trim(s@),
{
    let mut a: usize = 0;
    while a < s.len() && space(s[a])
        invariant
            a <= s@.len(),
            front_end(s@, ws(), 0) == front_end(s@, ws(), a as int),
        decreases s.len() - a,
    {
        a += 1;
    }
    let mut b: usize = s.len();
    let ghost t = s@.skip(a as int);
    proof {
        lemma_skip_while(s@, ws(), 0);
        assert(s@.skip(0) =~= s@);
        assert(t.take(t.len() as int) =~= t);
    }
    while b > a && space(s[b - 1])
        invariant
            a <= b <= s@.len(),
            t == s@.skip(a as int),
            back_end(t, ws(), t.len() as int) == back_end(t, ws(), (b - a) as int),
        decreases b,
    {
        b -= 1;
    }
    proof {
        lemma_drop_while_end(t, ws(), t.len() as int);
    }
    let out = slice_vec(s, a, b);
    assert(out@ =~= t.take(back_end(t, ws(), (b - a) as int)));
    out
}

/// `s[a..b]` as an owned vector.
pub fn slice_vec(s: &[char], a: usize, b: usize) -> (out: Vec<char>)
    requires
        a <= b <= s@.len(),
    ensures
        out@ == s@.subrange(a as int, b as int),
{
    let mut out: Vec<char> = Vec::new();
    let mut i = a;
    while i < b
        invariant
            a <= i <= b <= s@.len(),
            out@ == s@.subrange(a as int, i as int),
        decreases b - i,
    {
        out.push(s[i]);
        i += 1;
        assert(out@ =~= s@.subrange(a as int, i as int));
    }
    out
}

/// Appends `s[a..b]` to `out`.
pub fn push_range(out: &mut Vec<char>, s: &[char], a: usize, b: usize)
    requires
        a <= b <= s@.len(),
    ensures
        final(out)@ == old(out)@ + s@.subrange(a as int, b as int),
{
    let ghost start = out@;
    let mut i = a;
    while i < b
        invariant
            a <= i <= b <= s@.len(),
            out@ == start + s@.subrange(a as int, i as int),
        decreases b - i,
    {
        out.push(s[i]);
        i += 1;
        assert(out@ =~= start + s@.subrange(a as int, i as int));
    }
}

/// `a` followed by `b`.
pub fn concat(a: &[char], b: &[char]) -> (out: Vec<char>)
    ensures
        out@ == a@ + b@,
{
    let mut out = slice_vec(a, 0, a.len());
    let mut i: usize = 0;
    assert(a@.subrange(0, a@.len() as int) =~= a@);
    while i < b.len()
        invariant
            i <= b@.len(),
            out@ == a@ + b@.take(i as int),
        decreases b.len() - i,
    {
        out.push(b[i]);
        i += 1;
        assert(out@ =~= a@ + b@.take(i as int));
    }
    assert(b@.take(b@.len() as int) =~= b@);
    out
}

/// Whether two character runs are equal.
pub fn same(a: &[char], b: &[char]) -> (r: bool)
    ensures
        r == (a@ == b@),
{
    if a.len() != b.len() {
        return false;
    }
    let r = matches_at(a, b, 0);
    proof {
        if r {
            assert(a@.subrange(0, b@.len() as int) =~= a@);
        } else {
            assert(a@.subrange(0, b@.len() as int) =~= a@);
        }
    }
    r
}

/// Whether `s` opens with `p`.
pub open spec fn starts(s: Chars, p: Chars) -> bool {
    p.len() <= s.len() && s.take(p.len() as int) == p
}

/// Whether `s` closes with `p`.
pub open spec fn ends(s: Chars, p: Chars) -> bool {
    p.len() <= s.len() && s.skip(s.len() - p.len()) == p
}

pub fn starts_with(s: &[char], p: &[char]) -> (r: bool)
    ensures
        r == starts(s@, p@),
{
    let r = matches_at(s, p, 0);
    proof {
        if p@.len() <= s@.len() {
            assert(s@.subrange(0, p@.len() as int) =~= s@.take(p@.len() as int));
        }
    }
    r
}

pub fn ends_with(s: &[char], p: &[char]) -> (r: bool)
    ensures
        r == ends(s@, p@),
{
    if p.len() > s.len() {
        return false;
    }
    let r = matches_at(s, p, s.len() - p.len());
    proof {
        assert(s@.subrange(s@.len() - p@.len(), s@.len() as int) =~= s@.skip(
            s@.len() - p@.len(),
        ));
    }
    r
}

} // verus!

verus! {

/// The last index of `c` in `s[..to]`.
pub open spec fn rindex_to(s: Chars, c: char, to: int) -> Option<int>
    decreases to,
{
    if to <= 0 || to > s.len() {
        None
    } else if s[to - 1] == c {
        Some(to - 1)
    } else {
        rindex_to(s, c, to - 1)
    }
}

pub open spec fn rindex(s: Chars, c: char) -> Option<int> {
    rindex_to(s, c, s.len() as int)
}

pub proof fn lemma_rindex_to(s: Chars, c: char, to: int)
    requires
        0 <= to <= s.len(),
    ensures
        match rindex_to(s, c, to) {
            Some(i) => 0 <= i < to && s[i] == c && forall|j: int| i < j < to ==> s[j] != c,
            None => forall|j: int| 0 <= j < to ==> s[j] != c,
        },
    decreases to,
{
    if to > 0 && s[to - 1] != c {
        lemma_rindex_to(s, c, to - 1);
    }
}

/// The last index of `c` in `s`.
pub fn rfind_char(s: &[char], c: char) -> (r: Option<usize>)
    ensures
        r == (match rindex(s@, c) {
            Some(i) => Some(i as usize),
            None => None,
        }),
{
    let mut to = s.len();
    while to > 0
        invariant
            to <= s@.len(),
            rindex(s@, c) == rindex_to(s@, c, to as int),
        decreases to,
    {
        if s[to - 1] == c {
            return Some(to - 1);
        }
        to -= 1;
    }
    None
}

/// The first index of `c` in `s`.
pub fn find_char(s: &[char], c: char) -> (r: Option<usize>)
    ensures
        r == (match index_from(s@, c, 0) {
            Some(i) => Some(i as usize),
            None => None,
        }),
{
    let mut i: usize = 0;
    while i < s.len()
        invariant
            i <= s@.len(),
            index_from(s@, c, 0) == index_from(s@, c, i as int),
        decreases s.len() - i,
    {
        if s[i] == c {
            return Some(i);
        }
        i += 1;
    }
    None
}

/// Every character of `s` is an ASCII digit.
pub open spec fn all_digits(s: Chars) -> bool {
    forall|i: int| 0 <= i < s.len() ==> is_digit(#[trigger] s[i])
}

pub fn digits_only(s: &[char]) -> (b: bool)
    ensures
        b == all_digits(s@),
{
    let mut i: usize = 0;
    while i < s.len()
        invariant
            i <= s@.len(),
            forall|j: int| 0 <= j < i ==> is_digit(#[trigger] s@[j]),
        decreases s.len() - i,
    {
        if !digit(s[i]) {
            return false;
        }
        i += 1;
    }
    true
}

/// The value of a run of decimal digits.
pub open spec fn dec_value(s: Chars) -> nat
    decreases s.len(),
{
    if s.len() == 0 {
        0
    } else {
        dec_value(s.drop_last()) * 10 + ((s.last() as u32 - '0' as u32) as nat)
    }
}

/// The character classes text is trimmed by.
#[derive(Clone, Copy)]
pub enum Class {
    /// `char::is_whitespace`.
    Space,
    /// `-`.
    Dash,
    /// `|`.
    Bar,
    /// Whitespace and the punctuation a path token ends at:
    /// `()[]{},;:"'` and the backtick.
    Delim,
    /// `"`.
    Quote,
    /// `,`.
    Comma,
}

pub open spec fn class_pred(k: Class) -> spec_fn(char) -> bool {
    |c: char|
        match k {
            Class::Space => is_space(c),
            Class::Dash => c == '-',
            Class::Bar => c == '|',
            Class::Delim => is_space(c) || "()[]{},;:\"'`"@.contains(c),
            Class::Quote => c == '\u{22}',
            Class::Comma => c == ',',
        }
}

pub fn in_class(k: Class, c: char) -> (b: bool)
    ensures
        b == class_pred(k)(c),
{
    match k {
        Class::Space => space(c),
        Class::Dash => c == '-',
        Class::Bar => c == '|',
        Class::Delim => space(c) || one_of(c, "()[]{},;:\"'`"),
        Class::Quote => c == '\u{22}',
        Class::Comma => c == ',',
    }
}

/// Whether `c` is one of the characters of `set`.
pub fn one_of(c: char, set: &str) -> (b: bool)
    ensures
        b == set@.contains(c),
{
    let v = chars_of(set);
    let mut i: usize = 0;
    while i < v.len()
        invariant
            v@ == set@,
            i <= v@.len(),
            forall|j: int| 0 <= j < i ==> v@[j] != c,
        decreases v.len() - i,
    {
        if v[i] == c {
            assert(v@[i as int] == c);
            return true;
        }
        i += 1;
    }
    false
}

/// The index of the first character of `s` outside the class.
pub fn front_of(s: &[char], k: Class) -> (a: usize)
    ensures
        a == front_end(s@, class_pred(k), 0),
        a <= s@.len(),
        skip_while(s@, class_pred(k)) == s@.skip(a as int),
{
    let mut a: usize = 0;
    while a < s.len() && in_class(k, s[a])
        invariant
            a <= s@.len(),
            front_end(s@, class_pred(k), 0) == front_end(s@, class_pred(k), a as int),
        decreases s.len() - a,
    {
        a += 1;
    }
    proof {
        lemma_skip_while(s@, class_pred(k), 0);
        assert(s@.skip(0) =~= s@);
    }
    a
}

/// `s` with both ends stripped of the class.
pub fn trim_class(s: &[char], k: Class) -> (out: Vec<char>)
    ensures
        out@ == trim_by(s@, class_pred(k)),
{
    let a = front_of(s, k);
    let mut b: usize = s.len();
    let ghost t = s@.skip(a as int);
    proof {
        assert(t.take(t.len() as int) =~= t);
    }
    while b > a && in_class(k, s[b - 1])
        invariant
            a <= b <= s@.len(),
            t == s@.skip(a as int),
            back_end(t, class_pred(k), t.len() as int) == back_end(
                t,
                class_pred(k),
                (b - a) as int,
            ),
        decreases b,
    {
        b -= 1;
    }
    proof {
        lemma_drop_while_end(t, class_pred(k), t.len() as int);
    }
    let out = slice_vec(s, a, b);
    assert(out@ =~= t.take(back_end(t, class_pred(k), (b - a) as int)));
    out
}

/// The ASCII digit of a value below ten.
pub open spec fn digit_char(d: nat) -> char {
    (('0' as u32) + d) as char
}

/// The decimal numeral of `n`.
pub open spec fn dec_chars(n: nat) -> Chars
    decreases n,
{
    if n < 10 {
        seq![digit_char(n)]
    } else {
        dec_chars(n / 10).push(digit_char(n % 10))
    }
}

/// The decimal numeral of `n`.
pub fn decimal(n: u64) -> (out: Vec<char>)
    ensures
        out@ == dec_chars(n as nat),
    decreases n,
{
    let d = (n % 10) as u32;
    let c = char_of_ascii(48 + d);
    if n < 10 {
        let mut v: Vec<char> = Vec::new();
        v.push(c);
        v
    } else {
        let mut v = decimal(n / 10);
        v.push(c);
        v
    }
}

/// The pieces of `s` between the characters of a class.
pub open spec fn split_by(s: Chars, k: Class) -> Seq<Chars>
    decreases s.len(),
{
    if s.len() == 0 {
        seq![Seq::<char>::empty()]
    } else if class_pred(k)(s[0]) {
        seq![Seq::<char>::empty()] + split_by(s.drop_first(), k)
    } else {
        let r = split_by(s.drop_first(), k);
        r.update(0, seq![s[0]] + r[0])
    }
}

pub proof fn lemma_split_by_nonempty(s: Chars, k: Class)
    ensures
        split_by(s, k).len() >= 1,
    decreases s.len(),
{
    if s.len() > 0 {
        lemma_split_by_nonempty(s.drop_first(), k);
    }
}

/// The pieces of `s` split at every character of the class.
pub fn split_class(s: &[char], k: Class) -> (out: Vec<Vec<char>>)
    ensures
        out@.map_values(|p: Vec<char>| p@) == split_by(s@, k),
{
    let mut out: Vec<Vec<char>> = Vec::new();
    let mut cur: Vec<char> = Vec::new();
    let mut i: usize = 0;
    proof {
        lemma_split_by_nonempty(s@, k);
        assert(s@.skip(0) =~= s@);
        assert(onto_first(cur@, split_by(s@, k)) =~= split_by(s@, k));
    }
    while i < s.len()
        invariant
            i <= s@.len(),
            split_by(s@, k) == out@.map_values(|p: Vec<char>| p@) + onto_first(
                cur@,
                split_by(s@.skip(i as int), k),
            ),
        decreases s.len() - i,
    {
        let ghost rest = s@.skip(i as int);
        proof {
            assert(rest.drop_first() =~= s@.skip(i + 1));
            lemma_split_by_nonempty(rest.drop_first(), k);
        }
        if in_class(k, s[i]) {
            let ghost old_out = out@.map_values(|p: Vec<char>| p@);
            let ghost old_cur = cur@;
            out.push(cur);
            cur = Vec::new();
            proof {
                assert(out@.map_values(|p: Vec<char>| p@) =~= old_out.push(old_cur));
                let r = split_by(s@.skip(i + 1), k);
                assert(split_by(rest, k) =~= seq![Seq::<char>::empty()] + r);
                assert(onto_first(old_cur, split_by(rest, k)) =~= seq![old_cur] + r);
                assert(onto_first(cur@, r) =~= r);
                assert(old_out + (seq![old_cur] + r) =~= old_out.push(old_cur) + r);
            }
        } else {
            let ghost old_cur = cur@;
            cur.push(s[i]);
            proof {
                let r = split_by(s@.skip(i + 1), k);
                assert(rest[0] == s@[i as int]);
                assert(split_by(rest, k) == r.update(0, seq![rest[0]] + r[0]));
                assert(old_cur + (seq![rest[0]] + r[0]) =~= cur@ + r[0]);
                assert(onto_first(old_cur, split_by(rest, k)) =~= onto_first(cur@, r));
            }
        }
        i += 1;
    }
    let ghost before = out@.map_values(|p: Vec<char>| p@);
    let ghost last = cur@;
    proof {
        assert(s@.skip(i as int) =~= Seq::<char>::empty());
        assert(onto_first(last, split_by(Seq::<char>::empty(), k)) =~= seq![last]);
    }
    out.push(cur);
    proof {
        assert(out@.map_values(|p: Vec<char>| p@) =~= before.push(last));
    }
    out
}

/// `a` sorts no later than `b`: code point by code point, a prefix
/// first (the order of `str`'s `<=`, since UTF-8 keeps code point order).
pub open spec fn lex_le(a: Chars, b: Chars) -> bool
    decreases a.len(),
{
    if a.len() == 0 {
        true
    } else if b.len() == 0 {
        false
    } else if a[0] != b[0] {
        a[0] < b[0]
    } else {
        lex_le(a.drop_first(), b.drop_first())
    }
}

pub proof fn lemma_lex_total(a: Chars, b: Chars)
    ensures
        lex_le(a, b) || lex_le(b, a),
    decreases a.len(),
{
    if a.len() > 0 && b.len() > 0 && a[0] == b[0] {
        lemma_lex_total(a.drop_first(), b.drop_first());
    }
}

pub proof fn lemma_lex_antisym(a: Chars, b: Chars)
    requires
        lex_le(a, b),
        lex_le(b, a),
    ensures
        a == b,
    decreases a.len(),
{
    if a.len() == 0 {
        assert(b.len() == 0);
        assert(a =~= b);
    } else {
        assert(b.len() > 0);
        assert(a[0] == b[0]);
        lemma_lex_antisym(a.drop_first(), b.drop_first());
        assert(a =~= seq![a[0]] + a.drop_first());
        assert(b =~= seq![b[0]] + b.drop_first());
    }
}

pub proof fn lemma_lex_trans(a: Chars, b: Chars, c: Chars)
    requires
        lex_le(a, b),
        lex_le(b, c),
    ensures
        lex_le(a, c),
    decreases a.len(),
{
    if a.len() > 0 && b.len() > 0 && c.len() > 0 && a[0] == b[0] && b[0] == c[0] {
        lemma_lex_trans(a.drop_first(), b.drop_first(), c.drop_first());
    }
}

pub proof fn lemma_lex_refl(a: Chars)
    ensures
        lex_le(a, a),
    decreases a.len(),
{
    if a.len() > 0 {
        lemma_lex_refl(a.drop_first());
    }
}

/// Whether `a` sorts no later than `b`.
pub fn chars_le(a: &[char], b: &[char]) -> (r: bool)
    ensures
        r == lex_le(a@, b@),
{
    let mut i: usize = 0;
    assert(a@.skip(0) =~= a@ && b@.skip(0) =~= b@);
    while i < a.len() && i < b.len() && a[i] == b[i]
        invariant
            i <= a@.len(),
            i <= b@.len(),
            lex_le(a@, b@) == lex_le(a@.skip(i as int), b@.skip(i as int)),
        decreases a.len() - i,
    {
        assert(a@.skip(i as int).drop_first() =~= a@.skip(i + 1));
        assert(b@.skip(i as int).drop_first() =~= b@.skip(i + 1));
        i += 1;
    }
    if i == a.len() {
        true
    } else if i == b.len() {
        false
    } else {
        a[i] < b[i]
    }
}

/// Whether string `a` sorts no later than string `b`.
pub fn str_le(a: &str, b: &str) -> (r: bool)
    ensures
        r == lex_le(a@, b@),
{
    chars_le(&chars_of(a), &chars_of(b))
}

/// The views of some strings.
pub open spec fn views(v: Seq<String>) -> Seq<Chars> {
    v.map_values(|s: String| s@)
}

/// Sorted by `lex_le`.
pub open spec fn lex_sorted(s: Seq<Chars>) -> bool {
    forall|i: int, j: int| 0 <= i < j < s.len() ==> lex_le(#[trigger] s[i], #[trigger] s[j])
}

/// The strings in sorted order: the same strings, each as often.
pub fn sort_strings(v: Vec<String>) -> (out: Vec<String>)
    ensures
        lex_sorted(views(out@)),
        views(out@).to_multiset() == views(v@).to_multiset(),
{
    let ghost start = views(v@).to_multiset();
    let mut rest = v;
    let mut out: Vec<String> = Vec::new();
    proof {
        broadcast use vstd::seq_lib::group_to_multiset_ensures;
        assert(views(out@) =~= Seq::<Chars>::empty());
        assert(views(out@).to_multiset() =~= Multiset::<Chars>::empty());
        assert(Multiset::<Chars>::empty().add(views(rest@).to_multiset()) =~= views(rest@).to_multiset());
    }
    while rest.len() > 0
        invariant
            lex_sorted(views(out@)),
            forall|i: int, j: int|
                0 <= i < out@.len() && 0 <= j < rest@.len() ==> lex_le(
                    #[trigger] out@[i]@,
                    #[trigger] rest@[j]@,
                ),
            views(out@).to_multiset().add(views(rest@).to_multiset()) == start,
        decreases rest.len(),
    {
        let mut m: usize = 0;
        let mut j: usize = 1;
        proof {
            lemma_lex_refl(rest@[0]@);
        }
        while j < rest.len()
            invariant
                0 < rest@.len(),
                m < rest@.len(),
                1 <= j <= rest@.len(),
                forall|k: int| 0 <= k < j ==> lex_le(rest@[m as int]@, #[trigger] rest@[k]@),
            decreases rest.len() - j,
        {
            if !str_le(rest[m].as_str(), rest[j].as_str()) {
                proof {
                    lemma_lex_total(rest@[m as int]@, rest@[j as int]@);
                    assert forall|k: int| 0 <= k < j + 1 implies lex_le(
                        rest@[j as int]@,
                        #[trigger] rest@[k]@,
                    ) by {
                        if k < j {
                            lemma_lex_trans(rest@[j as int]@, rest@[m as int]@, rest@[k]@);
                        } else {
                            lemma_lex_refl(rest@[k]@);
                        }
                    }
                }
                m = j;
            }
            j += 1;
        }
        proof {
            lemma_lex_refl(rest@[m as int]@);
        }
        let ghost old_out = out@;
        let ghost old_rest = rest@;
        let x = rest.remove(m);
        out.push(x);
        proof {
            broadcast use vstd::seq_lib::group_to_multiset_ensures;
            assert(views(out@) =~= views(old_out).push(x@));
            assert(views(rest@) =~= views(old_rest).remove(m as int));
            assert(views(old_rest)[m as int] == x@);
            assert(views(old_rest).to_multiset() =~= views(rest@).to_multiset().insert(x@));
            assert(views(out@).to_multiset() =~= views(old_out).to_multiset().insert(x@));
            assert(views(out@).to_multiset().add(views(rest@).to_multiset()) =~= views(
                old_out,
            ).to_multiset().add(views(old_rest).to_multiset()));
            assert forall|i: int, k: int| 0 <= i < k < views(out@).len() implies lex_le(
                #[trigger] views(out@)[i],
                #[trigger] views(out@)[k],
            ) by {
                if k == views(out@).len() - 1 {
                    assert(old_out[i]@ == views(out@)[i]);
                    assert(lex_le(old_out[i]@, old_rest[m as int]@));
                } else {
                    assert(views(old_out)[i] == views(out@)[i]);
                    assert(views(old_out)[k] == views(out@)[k]);
                }
            }
            assert forall|i: int, k: int| 0 <= i < out@.len() && 0 <= k < rest@.len() implies lex_le(
                #[trigger] out@[i]@,
                #[trigger] rest@[k]@,
            ) by {
                let kk = if k < m { k } else { k + 1 };
                assert(rest@[k] == old_rest[kk]);
                if i == out@.len() - 1 {
                    assert(out@[i] == x);
                } else {
                    assert(out@[i] == old_out[i]);
                }
            }
        }
    }
    proof {
        broadcast use vstd::seq_lib::group_to_multiset_ensures;
        assert(views(rest@) =~= Seq::<Chars>::empty());
        assert(views(rest@).to_multiset() =~= Multiset::<Chars>::empty());
        assert(views(out@).to_multiset().add(Multiset::<Chars>::empty()) =~= views(out@).to_multiset());
    }
    out
}

/// A set of strings held as a vector: sorted, each once (the order a
/// `BTreeSet<String>` walks in).
pub open spec fn canonical(s: Seq<Chars>) -> bool {
    lex_sorted(s) && s.no_duplicates()
}

/// The set of the strings, sorted, each once.
pub fn canon(v: Vec<String>) -> (out: Vec<String>)
    ensures
        canonical(views(out@)),
        views(out@).to_set() == views(v@).to_set(),
{
    let sorted = sort_strings(v);
    proof {
        broadcast use vstd::seq_lib::group_to_multiset_ensures;
        assert forall|x: Chars| views(sorted@).to_set().contains(x) == views(v@).to_set().contains(x) by {
            assert(views(sorted@).contains(x) == (views(sorted@).to_multiset().count(x) > 0));
            assert(views(v@).contains(x) == (views(v@).to_multiset().count(x) > 0));
        }
        assert(views(sorted@).to_set() =~= views(v@).to_set());
    }
    let ghost sv = views(sorted@);
    let mut out: Vec<String> = Vec::new();
    let mut i: usize = 0;
    while i < sorted.len()
        invariant
            sv == views(sorted@),
            lex_sorted(sv),
            i <= sv.len(),
            canonical(views(out@)),
            views(out@).to_set() == sv.take(i as int).to_set(),
            i > 0 ==> views(out@).len() > 0 && views(out@).last() == sv[i - 1],
            i == 0 ==> out@.len() == 0,
        decreases sorted.len() - i,
    {
        let ghost before = views(out@);
        let x = chars_of(sorted[i].as_str());
        let dup = out.len() > 0 && crate::text::same(&chars_of(out[out.len() - 1].as_str()), &x);
        proof {
            assert(sv.take(i + 1) =~= sv.take(i as int).push(sv[i as int]));
            broadcast use vstd::seq_lib::lemma_seq_contains_after_push;
            assert(sv.take(i + 1).to_set() =~= sv.take(i as int).to_set().insert(sv[i as int]));
        }
        if !dup {
            out.push(string_of(&x));
            proof {
                let now = views(out@);
                assert(now =~= before.push(sv[i as int]));
                if i > 0 {
                    assert(before.last() == sv[i - 1]);
                    assert(lex_le(sv[i - 1], sv[i as int]));
                }
                assert forall|a: int, b: int| 0 <= a < b < now.len() implies lex_le(
                    #[trigger] now[a],
                    #[trigger] now[b],
                ) by {
                    if b == now.len() - 1 {
                        assert(now[a] == before[a]);
                        if a < before.len() - 1 {
                            assert(lex_le(before[a], before.last()));
                        } else {
                            lemma_lex_refl(before[a]);
                        }
                        lemma_lex_trans(before[a], before.last(), sv[i as int]);
                    } else {
                        assert(now[a] == before[a] && now[b] == before[b]);
                    }
                }
                assert forall|a: int, b: int| 0 <= a < now.len() && 0 <= b < now.len() && a != b implies now[a] != now[b] by {
                    if a == now.len() - 1 || b == now.len() - 1 {
                        let k = if a == now.len() - 1 { b } else { a };
                        assert(now[k] == before[k]);
                        if before[k] == sv[i as int] {
                            if k < before.len() - 1 {
                                assert(lex_le(before[k], before.last()));
                            } else {
                                lemma_lex_refl(before[k]);
                            }
                            lemma_lex_antisym(before.last(), sv[i as int]);
                        }
                    }
                }
                broadcast use vstd::seq_lib::lemma_seq_contains_after_push;
                assert(now.to_set() =~= before.to_set().insert(sv[i as int]));
            }
        } else {
            proof {
                assert(before.last() == sv[i as int]);
                assert(before.contains(sv[i as int])) by {
                    assert(before[before.len() - 1] == sv[i as int]);
                }
                assert(before.to_set().insert(sv[i as int]) =~= before.to_set());
            }
        }
        i += 1;
    }
    assert(sv.take(sv.len() as int) =~= sv);
    out
}

/// The value a table of `(key, value)` pairs gives a key: its first
/// entry from `i` on.
pub open spec fn value_from(table: Seq<(Chars, Chars)>, id: Chars, i: int) -> Option<Chars>
    decreases table.len() - i,
{
    if i < 0 || i >= table.len() {
        None
    } else if table[i].0 == id {
        Some(table[i].1)
    } else {
        value_from(table, id, i + 1)
    }
}

pub open spec fn value_for(table: Seq<(Chars, Chars)>, id: Chars) -> Option<Chars> {
    value_from(table, id, 0)
}

/// A table of string pairs as character runs.
pub open spec fn pairs_view(table: Seq<(String, String)>) -> Seq<(Chars, Chars)> {
    table.map_values(|p: (String, String)| (p.0@, p.1@))
}

/// The value the table gives `id`.
pub fn value_in(table: &[(String, String)], id: &[char]) -> (r: Option<Vec<char>>)
    ensures
        match value_for(pairs_view(table@), id@) {
            Some(w) => r matches Some(v) && v@ == w,
            None => r is None,
        },
{
    let ghost tv = pairs_view(table@);
    let mut i: usize = 0;
    while i < table.len()
        invariant
            i <= table@.len(),
            tv == pairs_view(table@),
            value_for(tv, id@) == value_from(tv, id@, i as int),
        decreases table.len() - i,
    {
        let key = chars_of(table[i].0.as_str());
        if same(&key, id) {
            return Some(chars_of(table[i].1.as_str()));
        }
        i += 1;
    }
    None
}

/// Two sets of strings held sorted, each once, are one sequence when
/// they hold the same strings.
pub proof fn lemma_canonical_unique(a: Seq<Chars>, b: Seq<Chars>)
    requires
        canonical(a),
        canonical(b),
        a.to_set() == b.to_set(),
    ensures
        a == b,
{
    broadcast use vstd::seq_lib::group_to_multiset_ensures;

    a.lemma_multiset_has_no_duplicates();
    b.lemma_multiset_has_no_duplicates();
    assert forall|x: Chars| #[trigger] a.to_multiset().count(x) == b.to_multiset().count(x) by {
        if a.contains(x) {
            assert(a.to_set().contains(x));
            assert(b.contains(x));
        } else if b.contains(x) {
            assert(b.to_set().contains(x));
            assert(a.contains(x));
        }
    }
    assert(a.to_multiset() =~= b.to_multiset());
    let leq = |x: Chars, y: Chars| lex_le(x, y);
    assert(vstd::relations::antisymmetric(leq)) by {
        assert forall|x: Chars, y: Chars| #[trigger] leq(x, y) && #[trigger] leq(y, x) implies x == y by {
            lemma_lex_antisym(x, y);
        }
    }
    lemma_sorted_unique(a, b, leq);
}

/// Two orderings of one multiset, both sorted by an antisymmetric
/// order, are the same sequence.
pub proof fn lemma_sorted_unique<A>(a: Seq<A>, b: Seq<A>, leq: spec_fn(A, A) -> bool)
    requires
        vstd::relations::antisymmetric(leq),
        vstd::relations::sorted_by(a, leq),
        vstd::relations::sorted_by(b, leq),
        a.to_multiset() == b.to_multiset(),
    ensures
        a == b,
    decreases a.len(),
{
    a.to_multiset_ensures();
    b.to_multiset_ensures();
    assert(a.len() == b.len());
    if a.len() == 0 {
        assert(a =~= b);
    } else {
        assert(a.contains(a[0]));
        assert(a.to_multiset().count(a[0]) > 0);
        assert(b.contains(a[0]));
        let j = choose|j: int| 0 <= j < b.len() && b[j] == a[0];
        assert(b.contains(b[0]));
        assert(b.to_multiset().count(b[0]) > 0);
        assert(a.contains(b[0]));
        let k = choose|k: int| 0 <= k < a.len() && a[k] == b[0];
        if a[0] != b[0] {
            assert(j > 0 && k > 0);
            assert(leq(b[0], b[j]));
            assert(leq(a[0], a[k]));
        }
        assert(a.remove(0) =~= a.drop_first());
        assert(b.remove(0) =~= b.drop_first());
        assert(a.drop_first().to_multiset() == a.to_multiset().remove(a[0]));
        assert(b.drop_first().to_multiset() == b.to_multiset().remove(b[0]));
        assert forall|x: int, y: int| 0 <= x < y < a.drop_first().len() implies #[trigger] leq(
            a.drop_first()[x],
            a.drop_first()[y],
        ) by {
            assert(leq(a[x + 1], a[y + 1]));
        }
        assert forall|x: int, y: int| 0 <= x < y < b.drop_first().len() implies #[trigger] leq(
            b.drop_first()[x],
            b.drop_first()[y],
        ) by {
            assert(leq(b[x + 1], b[y + 1]));
        }
        lemma_sorted_unique(a.drop_first(), b.drop_first(), leq);
        assert(a =~= seq![a[0]] + a.drop_first());
        assert(b =~= seq![b[0]] + b.drop_first());
    }
}

/// `s` with every occurrence of `pat` from `i` on replaced by `rep`,
/// left to right (`str::replace`).
pub open spec fn replace_from(s: Chars, pat: Chars, rep: Chars, i: int) -> Chars
    decreases s.len() + 1 - i,
{
    if pat.len() == 0 || i < 0 || i > s.len() {
        s.skip(i)
    } else {
        match find_from(s, pat, i) {
            None => s.skip(i),
            Some(j) => {
                proof {
                    lemma_find_from(s, pat, i);
                }
                s.subrange(i, j) + rep + replace_from(s, pat, rep, j + pat.len())
            },
        }
    }
}

/// `s` with every occurrence of a non-empty `pat` replaced by `rep`.
pub fn replace_all(s: &[char], pat: &[char], rep: &[char]) -> (out: Vec<char>)
    ensures
        out@ == replace_from(s@, pat@, rep@, 0),
{
    if pat.len() == 0 {
        let out = slice_vec(s, 0, s.len());
        assert(out@ =~= s@.skip(0));
        return out;
    }
    let mut out: Vec<char> = Vec::new();
    let mut i: usize = 0;
    while i <= s.len()
        invariant
            pat@.len() > 0,
            i <= s@.len(),
            out@ + replace_from(s@, pat@, rep@, i as int) == replace_from(s@, pat@, rep@, 0),
        decreases s.len() + 1 - i,
    {
        match find_at(s, pat, i) {
            None => {
                assert(replace_from(s@, pat@, rep@, i as int) == s@.skip(i as int));
                let ghost before = out@;
                push_range(&mut out, s, i, s.len());
                assert(s@.subrange(i as int, s@.len() as int) =~= s@.skip(i as int));
                return out;
            },
            Some(j) => {
                proof {
                    lemma_find_from(s@, pat@, i as int);
                }
                let ghost before = out@;
                push_range(&mut out, s, i, j);
                push_range(&mut out, rep, 0, rep.len());
                assert(rep@.subrange(0, rep@.len() as int) =~= rep@);
                assert(out@ + replace_from(s@, pat@, rep@, j + pat@.len()) =~= before + replace_from(
                    s@,
                    pat@,
                    rep@,
                    i as int,
                ));
                i = j + pat.len();
            },
        }
    }
    out
}

/// Runs of characters one after another.
pub open spec fn concat_all(parts: Seq<Chars>) -> Chars
    decreases parts.len(),
{
    if parts.len() == 0 {
        Seq::empty()
    } else {
        concat_all(parts.drop_last()) + parts.last()
    }
}

/// The pieces of `s` from `from` on between the occurrences of a
/// non-empty `pat` (`str::split` by a string).
pub open spec fn split_str_from(s: Chars, pat: Chars, from: int) -> Seq<Chars>
    decreases s.len() + 1 - from,
{
    if from < 0 || from > s.len() || pat.len() == 0 {
        seq![s.skip(from)]
    } else {
        match find_from(s, pat, from) {
            None => seq![s.skip(from)],
            Some(i) => {
                proof {
                    lemma_find_from(s, pat, from);
                }
                seq![s.subrange(from, i)] + split_str_from(s, pat, i + pat.len())
            },
        }
    }
}

pub proof fn lemma_split_str_nonempty(s: Chars, pat: Chars, from: int)
    ensures
        split_str_from(s, pat, from).len() >= 1,
    decreases s.len() + 1 - from,
{
    if 0 <= from <= s.len() && pat.len() > 0 {
        lemma_find_from(s, pat, from);
        if let Some(i) = find_from(s, pat, from) {
            lemma_split_str_nonempty(s, pat, i + pat.len());
        }
    }
}

pub open spec fn split_str(s: Chars, pat: Chars) -> Seq<Chars> {
    split_str_from(s, pat, 0)
}

/// The pieces of `s` between the occurrences of a non-empty `pat`.
pub fn split_on(s: &[char], pat: &[char]) -> (out: Vec<Vec<char>>)
    requires
        pat@.len() > 0,
    ensures
        out@.map_values(|p: Vec<char>| p@) == split_str(s@, pat@),
{
    let mut out: Vec<Vec<char>> = Vec::new();
    let mut from: usize = 0;
    let n = s.len();
    while from <= n
        invariant
            n == s@.len(),
            pat@.len() > 0,
            from <= n,
            out@.map_values(|p: Vec<char>| p@) + split_str_from(s@, pat@, from as int) == split_str(
                s@,
                pat@,
            ),
        decreases n + 1 - from,
    {
        proof {
            lemma_find_from(s@, pat@, from as int);
        }
        let ghost before = out@.map_values(|p: Vec<char>| p@);
        match find_at(s, pat, from) {
            None => {
                let last = slice_vec(s, from, n);
                assert(last@ =~= s@.skip(from as int));
                out.push(last);
                assert(out@.map_values(|p: Vec<char>| p@) =~= before + split_str_from(
                    s@,
                    pat@,
                    from as int,
                ));
                return out;
            },
            Some(i) => {
                let piece = slice_vec(s, from, i);
                out.push(piece);
                assert(out@.map_values(|p: Vec<char>| p@) =~= before.push(piece@));
                assert(before + split_str_from(s@, pat@, from as int) =~= before.push(piece@)
                    + split_str_from(s@, pat@, i + pat@.len()));
                from = i + pat.len();
            },
        }
    }
    out
}

/// `s` without the characters of the class at its end.
pub fn strip_end(s: &[char], k: Class) -> (out: Vec<char>)
    ensures
        out@ == drop_while_end(s@, class_pred(k)),
{
    let mut b: usize = s.len();
    proof {
        assert(s@.take(s@.len() as int) =~= s@);
    }
    while b > 0 && in_class(k, s[b - 1])
        invariant
            b <= s@.len(),
            back_end(s@, class_pred(k), s@.len() as int) == back_end(s@, class_pred(k), b as int),
        decreases b,
    {
        b -= 1;
    }
    proof {
        lemma_drop_while_end(s@, class_pred(k), s@.len() as int);
    }
    let out = slice_vec(s, 0, b);
    assert(out@ =~= s@.take(b as int));
    out
}

/// `s` without the characters of the class at its front.
pub fn strip_front(s: &[char], k: Class) -> (out: Vec<char>)
    ensures
        out@ == skip_while(s@, class_pred(k)),
{
    let a = front_of(s, k);
    let out = slice_vec(s, a, s.len());
    assert(out@ =~= s@.skip(a as int));
    out
}

/// The text of `s` before its first `c` (all of it if there is none).
pub open spec fn before_char(s: Chars, c: char) -> Chars {
    match index_from(s, c, 0) {
        Some(k) => s.take(k),
        None => s,
    }
}

pub fn before_first(s: &[char], c: char) -> (out: Vec<char>)
    ensures
        out@ == before_char(s@, c),
{
    proof {
        lemma_index_from(s@, c, 0);
    }
    match find_char(s, c) {
        Some(k) => {
            let _n = s.len();
            assert(index_from(s@, c, 0) == Some(k as int));
            let out = slice_vec(s, 0, k);
            assert(out@ =~= s@.take(k as int));
            out
        },
        None => {
            assert(index_from(s@, c, 0) is None);
            let out = slice_vec(s, 0, s.len());
            assert(out@ =~= s@);
            out
        },
    }
}

/// `parts` joined by `sep`.
pub open spec fn joined(parts: Seq<Chars>, sep: Chars) -> Chars
    decreases parts.len(),
{
    if parts.len() == 0 {
        Seq::empty()
    } else if parts.len() == 1 {
        parts[0]
    } else {
        joined(parts.drop_last(), sep) + sep + parts.last()
    }
}

/// `parts` joined by `sep`.
pub fn join(parts: &Vec<Vec<char>>, sep: &[char]) -> (out: Vec<char>)
    ensures
        out@ == joined(parts@.map_values(|p: Vec<char>| p@), sep@),
{
    let ghost pv = parts@.map_values(|p: Vec<char>| p@);
    let mut out: Vec<char> = Vec::new();
    let mut k: usize = 0;
    while k < parts.len()
        invariant
            pv == parts@.map_values(|p: Vec<char>| p@),
            k <= parts@.len(),
            out@ == joined(pv.take(k as int), sep@),
        decreases parts.len() - k,
    {
        assert(pv.take(k + 1).drop_last() =~= pv.take(k as int));
        assert(pv.take(k + 1).last() == parts@[k as int]@);
        if k > 0 {
            out = concat(&out, sep);
        } else {
            assert(pv.take(1).len() == 1);
        }
        out = concat(&out, &parts[k]);
        assert(k == 0 ==> out@ =~= pv.take(1)[0]);
        k += 1;
    }
    assert(pv.take(parts@.len() as int) =~= pv);
    out
}

/// `s` without every trailing `suf`.
pub open spec fn strip_suffixes(s: Chars, suf: Chars) -> Chars
    decreases s.len(),
{
    if suf.len() > 0 && ends(s, suf) {
        strip_suffixes(s.take(s.len() - suf.len()), suf)
    } else {
        s
    }
}

/// `s` without every leading `pre`.
pub open spec fn strip_prefixes(s: Chars, pre: Chars) -> Chars
    decreases s.len(),
{
    if pre.len() > 0 && starts(s, pre) {
        strip_prefixes(s.skip(pre.len() as int), pre)
    } else {
        s
    }
}

/// `str::trim_end_matches` by a string.
pub fn trim_end_str(s: &[char], suf: &[char]) -> (out: Vec<char>)
    ensures
        out@ == strip_suffixes(s@, suf@),
{
    let mut cur = slice_vec(s, 0, s.len());
    assert(cur@ =~= s@);
    while suf.len() > 0 && ends_with(&cur, suf)
        invariant
            strip_suffixes(cur@, suf@) == strip_suffixes(s@, suf@),
        decreases cur.len(),
    {
        let n = cur.len() - suf.len();
        cur = slice_vec(&cur, 0, n);
    }
    cur
}

/// `str::trim_start_matches` by a string.
pub fn trim_start_str(s: &[char], pre: &[char]) -> (out: Vec<char>)
    ensures
        out@ == strip_prefixes(s@, pre@),
{
    let mut cur = slice_vec(s, 0, s.len());
    assert(cur@ =~= s@);
    while pre.len() > 0 && starts_with(&cur, pre)
        invariant
            strip_prefixes(cur@, pre@) == strip_prefixes(s@, pre@),
        decreases cur.len(),
    {
        let n = cur.len();
        let next = slice_vec(&cur, pre.len(), n);
        assert(next@ =~= cur@.skip(pre@.len() as int));
        cur = next;
    }
    cur
}

} // verus!
