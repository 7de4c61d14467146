//! The `#form` suffix of a fact id: the value grammar, the rendering a
//! document sees, and the token class a chip span is read with.

use super::{dotted, dotted_spec, schemaver, schemaver_spec, suffix, id_suffix};
use crate::text::{
    alpha, chars_of, dec_chars, dec_value, digit, digits_only, is_alpha, is_alnum, is_digit, alnum,
    all_digits, same, slice_vec, string_of, to_upper, upper, Chars,
};
use vstd::prelude::*;
use vstd::utf8::encode_utf8;
use vstd::string::StringSliceAdditionalSpecFns;

verus! {

/// `#v` three-part SemVer · `#vminor` major.minor · `#digits` a bare
/// integer (rendered with thousands commas from 1,000) · `#schemaver`
/// a report id `ce.<name>/<ver>` · `#word` a count 1..=20 rendered as
/// the surface language's number word · `#Word` the same, capitalized
/// at a sentence start (Chinese has no case: identical).
#[derive(Clone, Copy, Debug, PartialEq, Eq, Structural)]
pub enum Form {
    V,
    VMinor,
    Digits,
    SchemaVer,
    Word,
    WordCap,
}

/// The form an id's suffix names, if it names one.
pub open spec fn form_of(id: Chars) -> Option<Form> {
    match suffix(id) {
        Some(s) => if s == "v"@ {
            Some(Form::V)
        } else if s == "vminor"@ {
            Some(Form::VMinor)
        } else if s == "digits"@ {
            Some(Form::Digits)
        } else if s == "schemaver"@ {
            Some(Form::SchemaVer)
        } else if s == "word"@ {
            Some(Form::Word)
        } else if s == "Word"@ {
            Some(Form::WordCap)
        } else {
            None
        },
        None => None,
    }
}

/// The Chinese numerals a `#word` token is read with.
pub open spec fn zh_numeral(c: char) -> bool {
    "〇一两二三四五六七八九十"@.contains(c)
}

pub open spec fn token_char_spec(form: Form, zh: bool, c: char) -> bool {
    match form {
        Form::V | Form::VMinor => is_digit(c) || c == '.',
        Form::Digits => is_digit(c) || c == ',',
        Form::SchemaVer => is_alnum(c) || c == '.' || c == '/' || c == '-',
        Form::Word | Form::WordCap => if zh {
            zh_numeral(c)
        } else {
            is_alpha(c)
        },
    }
}

/// `usize::from_str`: an optional `+`, then one or more digits whose
/// value fits a `usize`.
pub open spec fn parse_usize(s: Chars) -> Option<nat> {
    let body = if s.len() > 0 && s[0] == '+' {
        s.drop_first()
    } else {
        s
    };
    if body.len() > 0 && all_digits(body) && dec_value(body) <= usize::MAX {
        Some(dec_value(body))
    } else {
        None
    }
}

/// The count a `#word` value names, when it is one of 1..=20.
pub open spec fn word_count(value: Chars) -> Option<nat> {
    match parse_usize(value) {
        Some(n) => if 1 <= n <= 20 {
            Some(n)
        } else {
            None
        },
        None => None,
    }
}

pub open spec fn admits_spec(form: Form, value: Chars) -> bool {
    match form {
        Form::V => dotted_spec(value, 3),
        Form::VMinor => dotted_spec(value, 2),
        Form::Digits => dotted_spec(value, 1),
        Form::SchemaVer => schemaver_spec(value),
        Form::Word | Form::WordCap => word_count(value) is Some,
    }
}

/// Thousands commas: a `,` before character `i > 0` wherever the
/// string's byte length less `i` is a multiple of three.
pub open spec fn grouped_to(s: Chars, len: int, m: int) -> Chars
    decreases m,
{
    if m <= 0 {
        Seq::empty()
    } else {
        let i = m - 1;
        let before = grouped_to(s, len, i);
        if i > 0 && (len - i) % 3 == 0 {
            before.push(',').push(s[i])
        } else {
            before.push(s[i])
        }
    }
}

pub open spec fn grouped_spec(s: Chars, len: int) -> Chars {
    grouped_to(s, len, s.len() as int)
}

/// The English number words, one to twenty.
pub open spec fn en_word(n: nat) -> Chars {
    if n == 1 { "one"@ } else if n == 2 { "two"@ } else if n == 3 { "three"@ }
    else if n == 4 { "four"@ } else if n == 5 { "five"@ } else if n == 6 { "six"@ }
    else if n == 7 { "seven"@ } else if n == 8 { "eight"@ } else if n == 9 { "nine"@ }
    else if n == 10 { "ten"@ } else if n == 11 { "eleven"@ } else if n == 12 { "twelve"@ }
    else if n == 13 { "thirteen"@ } else if n == 14 { "fourteen"@ }
    else if n == 15 { "fifteen"@ } else if n == 16 { "sixteen"@ }
    else if n == 17 { "seventeen"@ } else if n == 18 { "eighteen"@ }
    else if n == 19 { "nineteen"@ } else { "twenty"@ }
}

/// The Chinese number words, one to twenty; two is 两, which stands
/// before a measure word where 二 would be wrong.
pub open spec fn zh_word(n: nat) -> Chars {
    if n == 1 { "一"@ } else if n == 2 { "两"@ } else if n == 3 { "三"@ }
    else if n == 4 { "四"@ } else if n == 5 { "五"@ } else if n == 6 { "六"@ }
    else if n == 7 { "七"@ } else if n == 8 { "八"@ } else if n == 9 { "九"@ }
    else if n == 10 { "十"@ } else if n == 11 { "十一"@ } else if n == 12 { "十二"@ }
    else if n == 13 { "十三"@ } else if n == 14 { "十四"@ } else if n == 15 { "十五"@ }
    else if n == 16 { "十六"@ } else if n == 17 { "十七"@ } else if n == 18 { "十八"@ }
    else if n == 19 { "十九"@ } else { "二十"@ }
}

pub open spec fn word_spec(n: nat, zh: bool) -> Chars {
    if zh {
        zh_word(n)
    } else {
        en_word(n)
    }
}

/// The English number words in counting order, as one list.
pub open spec fn en_words() -> Seq<Chars> {
    seq![
        "one"@, "two"@, "three"@, "four"@, "five"@, "six"@, "seven"@, "eight"@, "nine"@, "ten"@,
        "eleven"@, "twelve"@, "thirteen"@, "fourteen"@, "fifteen"@, "sixteen"@, "seventeen"@,
        "eighteen"@, "nineteen"@, "twenty"@,
    ]
}

/// The Chinese number words in counting order, as one list.
pub open spec fn zh_words() -> Seq<Chars> {
    seq![
        "一"@, "两"@, "三"@, "四"@, "五"@, "六"@, "七"@, "八"@, "九"@, "十"@, "十一"@, "十二"@,
        "十三"@, "十四"@, "十五"@, "十六"@, "十七"@, "十八"@, "十九"@, "二十"@,
    ]
}

/// The word for `n` is the `n`-th of the counting list, in either
/// language.
pub proof fn lemma_word_counts(n: nat, zh: bool)
    requires
        1 <= n <= 20,
    ensures
        word_spec(n, zh) == (if zh { zh_words() } else { en_words() })[n - 1],
{
}

/// No two counts share a word: reading a word back gives the count it
/// was rendered from.
pub proof fn lemma_word_injective(n: nat, m: nat, zh: bool)
    requires
        1 <= n <= 20,
        1 <= m <= 20,
        word_spec(n, zh) == word_spec(m, zh),
    ensures
        n == m,
{
    reveal_strlit("one"); reveal_strlit("two"); reveal_strlit("three"); reveal_strlit("four");
    reveal_strlit("five"); reveal_strlit("six"); reveal_strlit("seven"); reveal_strlit("eight");
    reveal_strlit("nine"); reveal_strlit("ten"); reveal_strlit("eleven"); reveal_strlit("twelve");
    reveal_strlit("thirteen"); reveal_strlit("fourteen"); reveal_strlit("fifteen");
    reveal_strlit("sixteen"); reveal_strlit("seventeen"); reveal_strlit("eighteen");
    reveal_strlit("nineteen"); reveal_strlit("twenty");
    reveal_strlit("一"); reveal_strlit("两"); reveal_strlit("三"); reveal_strlit("四");
    reveal_strlit("五"); reveal_strlit("六"); reveal_strlit("七"); reveal_strlit("八");
    reveal_strlit("九"); reveal_strlit("十"); reveal_strlit("十一"); reveal_strlit("十二");
    reveal_strlit("十三"); reveal_strlit("十四"); reveal_strlit("十五"); reveal_strlit("十六");
    reveal_strlit("十七"); reveal_strlit("十八"); reveal_strlit("十九"); reveal_strlit("二十");
    let w = word_spec(n, zh);
    assert(w.len() == word_spec(m, zh).len());
    if w.len() > 0 {
        assert(w[0] == word_spec(m, zh)[0]);
        assert(w.last() == word_spec(m, zh).last());
    }
    if w.len() > 1 {
        assert(w[1] == word_spec(m, zh)[1]);
    }
}

/// A decimal numeral reads back as the number it writes.
pub proof fn lemma_dec_reads_back(n: nat)
    ensures
        dec_chars(n).len() > 0,
        all_digits(dec_chars(n)),
        dec_value(dec_chars(n)) == n,
    decreases n,
{
    let c = crate::text::digit_char(n % 10);
    assert(c as u32 == 48 + n % 10);
    assert(c as u32 - '0' as u32 == n % 10);
    if n >= 10 {
        lemma_dec_reads_back(n / 10);
        let d = dec_chars(n);
        assert(d.last() == c);
        assert((n / 10) * 10 + n % 10 == n);
        assert(dec_value(d) == dec_value(d.drop_last()) * 10 + ((d.last() as u32 - '0' as u32) as nat));
        assert(d.drop_last() =~= dec_chars(n / 10));
        assert forall|i: int| 0 <= i < d.len() implies is_digit(#[trigger] d[i]) by {
            if i < d.len() - 1 {
                assert(d[i] == dec_chars(n / 10)[i]);
            }
        }
    } else {
        let d = dec_chars(n);
        assert(d == seq![c]);
        assert(d.drop_last() =~= Seq::<char>::empty());
        assert(dec_value(d.drop_last()) == 0);
        assert(dec_value(d) == dec_value(d.drop_last()) * 10 + ((d.last() as u32 - '0' as u32) as nat));
    }
}

/// A `#word` chip whose value is the count `n` (written in decimal)
/// renders as the `n`-th word of the counting list, capitalized for
/// `#Word`.
pub proof fn lemma_word_renders_count(n: nat, len: int, zh: bool)
    requires
        1 <= n <= 20,
    ensures
        admits_spec(Form::Word, dec_chars(n)),
        render_spec(Form::Word, dec_chars(n), len, zh) == (if zh { zh_words() } else { en_words() })[n - 1],
        render_spec(Form::WordCap, dec_chars(n), len, zh) == capitalized(
            (if zh { zh_words() } else { en_words() })[n - 1],
        ),
{
    lemma_dec_reads_back(n);
    let d = dec_chars(n);
    if d.len() > 0 && d[0] == '+' {
        assert(is_digit(d[0]));
    }
    assert(parse_usize(d) == Some(n));
    lemma_word_counts(n, zh);
}

/// The first character raised to upper case, the rest as written.
pub open spec fn capitalized(w: Chars) -> Chars {
    if w.len() == 0 {
        w
    } else {
        seq![upper(w[0])] + w.drop_first()
    }
}

/// The text a document carries for `value` of this form; `len` is the
/// value's length in bytes (the comma rule counts bytes).
pub open spec fn render_spec(form: Form, value: Chars, len: int, zh: bool) -> Chars {
    match form {
        Form::Digits => grouped_spec(value, len),
        Form::Word => word_spec(word_count(value)->0, zh),
        Form::WordCap => capitalized(word_spec(word_count(value)->0, zh)),
        _ => value,
    }
}

/// The form an id's suffix names, if it names one.
pub fn form_named(id: &[char]) -> (r: Option<Form>)
    ensures
        r == form_of(id@),
{
    match id_suffix(id) {
        Some(s) => {
            if same(&s, &chars_of("v")) {
                Some(Form::V)
            } else if same(&s, &chars_of("vminor")) {
                Some(Form::VMinor)
            } else if same(&s, &chars_of("digits")) {
                Some(Form::Digits)
            } else if same(&s, &chars_of("schemaver")) {
                Some(Form::SchemaVer)
            } else if same(&s, &chars_of("word")) {
                Some(Form::Word)
            } else if same(&s, &chars_of("Word")) {
                Some(Form::WordCap)
            } else {
                None
            }
        },
        None => None,
    }
}

impl Form {
    /// The form an id's `#form` suffix names.
    pub fn of(id: &str) -> (f: Form)
        requires
            form_of(id@) is Some,
        ensures
            Some(f) == form_of(id@),
    {
        match form_named(&chars_of(id)) {
            Some(f) => f,
            None => Form::V,
        }
    }

    /// Is `c` part of a document token of this form, on a surface in
    /// the language `zh` says? A chip span is read as maximal runs of
    /// these characters.
    #[verifier::loop_isolation(false)]
    pub fn token_char(self, zh: bool, c: char) -> (b: bool)
        ensures
            b == token_char_spec(self, zh, c),
    {
        match self {
            Form::V | Form::VMinor => digit(c) || c == '.',
            Form::Digits => digit(c) || c == ',',
            Form::SchemaVer => alnum(c) || c == '.' || c == '/' || c == '-',
            Form::Word | Form::WordCap => {
                if zh {
                    let numerals = chars_of("〇一两二三四五六七八九十");
                    let mut i: usize = 0;
                    while i < numerals.len()
                        invariant
                            numerals@ == "〇一两二三四五六七八九十"@,
                            i <= numerals@.len(),
                            forall|j: int| 0 <= j < i ==> numerals@[j] != c,
                        decreases numerals.len() - i,
                    {
                        if numerals[i] == c {
                            assert(numerals@[i as int] == c);
                            assert(numerals@.contains(c));
                            return true;
                        }
                        i += 1;
                    }
                    false
                } else {
                    alpha(c)
                }
            },
        }
    }

    /// Does the registry value have this form's canonical shape?
    /// (`#digits` stays bare here — the commas are rendering.)
    pub fn admits(self, value: &str) -> (b: bool)
        ensures
            b == admits_spec(self, value@),
    {
        let v = chars_of(value);
        match self {
            Form::V => dotted(&v, 3),
            Form::VMinor => dotted(&v, 2),
            Form::Digits => dotted(&v, 1),
            Form::SchemaVer => schemaver(&v),
            Form::Word | Form::WordCap => word_number(&v).is_some(),
        }
    }

    /// The text a document carries for `value`.
    pub fn render(self, value: &str, zh: bool) -> (out: String)
        requires
            value.spec_bytes().len() <= usize::MAX,
            (self == Form::Word || self == Form::WordCap) ==> word_count(value@) is Some,
        ensures
            out@ == render_spec(self, value@, value.spec_bytes().len() as int, zh),
    {
        match self {
            Form::Digits => grouped(value),
            Form::Word => {
                let n = word_number(&chars_of(value)).unwrap();
                word(n, zh).to_owned()
            },
            Form::WordCap => {
                let n = word_number(&chars_of(value)).unwrap();
                let w = chars_of(word(n, zh));
                if w.len() == 0 {
                    return string_of(&w);
                }
                let mut out: Vec<char> = Vec::new();
                out.push(to_upper(w[0]));
                let mut i: usize = 1;
                while i < w.len()
                    invariant
                        1 <= i <= w@.len(),
                        out@ == seq![upper(w@[0])] + w@.subrange(1, i as int),
                    decreases w.len() - i,
                {
                    out.push(w[i]);
                    i += 1;
                    assert(out@ =~= seq![upper(w@[0])] + w@.subrange(1, i as int));
                }
                assert(w@.subrange(1, w@.len() as int) =~= w@.drop_first());
                string_of(&out)
            },
            _ => value.to_owned(),
        }
    }
}

/// The number a `#word` value names, when it parses as a usize in 1..=20.
pub fn word_number(v: &[char]) -> (r: Option<u64>)
    ensures
        match word_count(v@) {
            Some(n) => r == Some(n as u64),
            None => r is None,
        },
{
    let start: usize = if v.len() > 0 && v[0] == '+' {
        1
    } else {
        0
    };
    let body = slice_vec(v, start, v.len());
    proof {
        if start == 1 {
            assert(body@ =~= v@.drop_first());
        } else {
            assert(body@ =~= v@);
        }
    }
    if body.len() == 0 || !digits_only(&body) {
        return None;
    }
    // the value, saturated at 21: anything past twenty is out of range
    let mut x: u64 = 0;
    let mut i: usize = 0;
    while i < body.len()
        invariant
            i <= body@.len(),
            all_digits(body@),
            x as nat == if dec_value(body@.take(i as int)) < 21 {
                dec_value(body@.take(i as int))
            } else {
                21
            },
        decreases body.len() - i,
    {
        let d = (body[i] as u32 - '0' as u32) as u64;
        assert(is_digit(body@[i as int]));
        assert(body@.take(i + 1).drop_last() =~= body@.take(i as int));
        let ghost prev = dec_value(body@.take(i as int));
        assert(dec_value(body@.take(i + 1)) == prev * 10 + d);
        x = if x >= 21 {
            21
        } else if x * 10 + d >= 21 {
            21
        } else {
            x * 10 + d
        };
        i += 1;
    }
    assert(body@.take(body@.len() as int) =~= body@);
    if 1 <= x && x <= 20 {
        Some(x)
    } else {
        None
    }
}

/// The number word for 1..=20.
pub fn word(n: u64, zh: bool) -> (w: &'static str)
    requires
        1 <= n <= 20,
    ensures
        w@ == word_spec(n as nat, zh),
{
    if zh {
        match n {
            1 => "一", 2 => "两", 3 => "三", 4 => "四", 5 => "五", 6 => "六", 7 => "七",
            8 => "八", 9 => "九", 10 => "十", 11 => "十一", 12 => "十二", 13 => "十三",
            14 => "十四", 15 => "十五", 16 => "十六", 17 => "十七", 18 => "十八",
            19 => "十九", _ => "二十",
        }
    } else {
        match n {
            1 => "one", 2 => "two", 3 => "three", 4 => "four", 5 => "five", 6 => "six",
            7 => "seven", 8 => "eight", 9 => "nine", 10 => "ten", 11 => "eleven",
            12 => "twelve", 13 => "thirteen", 14 => "fourteen", 15 => "fifteen",
            16 => "sixteen", 17 => "seventeen", 18 => "eighteen", 19 => "nineteen",
            _ => "twenty",
        }
    }
}

/// A string's characters never outnumber its bytes.
pub proof fn lemma_chars_le_bytes(s: Chars)
    ensures
        s.len() <= encode_utf8(s).len(),
    decreases s.len(),
{
    if s.len() > 0 {
        lemma_chars_le_bytes(s.drop_first());
    }
}

/// Thousands commas from 1,000 (README: "4,096").
pub fn grouped(digits: &str) -> (out: String)
    requires
        digits.spec_bytes().len() <= usize::MAX,
    ensures
        out@ == grouped_spec(digits@, digits.spec_bytes().len() as int),
{
    let len = digits.len();
    let cs = chars_of(digits);
    proof {
        lemma_chars_le_bytes(digits@);
    }
    let mut out: Vec<char> = Vec::new();
    let mut i: usize = 0;
    while i < cs.len()
        invariant
            cs@ == digits@,
            len == digits.spec_bytes().len(),
            cs@.len() <= len,
            i <= cs@.len(),
            out@ == grouped_to(cs@, len as int, i as int),
        decreases cs.len() - i,
    {
        if i > 0 && (len - i) % 3 == 0 {
            out.push(',');
        }
        out.push(cs[i]);
        i += 1;
    }
    string_of(&out)
}

} // verus!
