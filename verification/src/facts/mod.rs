//! The derived-fact registry: every fact a document carries that moves
//! with a release — versions, revisions, schema ids, gate floors,
//! toolchain pins — resolved once and rendered everywhere. Ids read
//! `family:key#form`; the form names the value grammar and the token
//! class a chip span is read with.
//!
//! Two tiers. A LINKED fact is read through a typed product path; a
//! SCRAPED fact is read from a file by a grammar this crate owns and
//! carries the debt line naming what promotes it.

pub mod chip;
pub mod fixpoint;
pub mod form;
pub mod restate;
pub mod scrape;
pub mod ver;
pub mod gate;
pub mod count;
pub mod block;
pub mod report;

use crate::text::{
    lex_le, lemma_lex_antisym, lemma_lex_refl, lemma_lex_total, lemma_lex_trans, str_le,
    chars_of, digit, alnum, all_digits, is_alnum, is_digit, is_lower, rfind_char, rindex,
    same, slice_vec, split, split_char, starts, starts_with, index_from, find_char,
    lemma_index_from, lemma_rindex_to, lemma_split_nonempty, Chars,
};
use vstd::prelude::*;

verus! {

/// The projection's own schema id.
pub const PROJECTION_SCHEMA: &'static str = "ce.docs-facts/0.1.0";

#[derive(Clone, Copy, Debug, PartialEq, Eq, Structural)]
pub enum Tier {
    Linked,
    Scraped,
}

/// One registered fact: id, rendered value, tier, the owning source
/// (`path::NAME` for a const) and — scraped only — the debt line.
#[derive(Clone, Debug)]
pub struct Fact {
    pub id: String,
    pub value: String,
    pub tier: Tier,
    pub source: String,
    pub debt: Option<String>,
}

/// A fact read through a typed product path.
pub fn linked(id: &str, value: &str, source: &str) -> (f: Fact)
    ensures
        f.id@ == id@,
        f.value@ == value@,
        f.tier == Tier::Linked,
        f.source@ == source@,
        f.debt is None,
{
    Fact {
        id: id.to_owned(),
        value: value.to_owned(),
        tier: Tier::Linked,
        source: source.to_owned(),
        debt: None,
    }
}

/// A fact is the one with this id, value, tier, source and debt line.
pub open spec fn is_fact(f: Fact, id: Chars, value: Chars, tier: Tier, source: Chars, debt: Option<Chars>) -> bool {
    &&& f.id@ == id
    &&& f.value@ == value
    &&& f.tier == tier
    &&& f.source@ == source
    &&& match (f.debt, debt) {
        (Some(d), Some(e)) => d@ == e,
        (None, None) => true,
        _ => false,
    }
}

/// A fact read from a file by a grammar of its own, with its debt.
pub fn scraped(id: &str, value: &str, source: &str, debt: &str) -> (f: Fact)
    ensures
        f.id@ == id@,
        f.value@ == value@,
        f.tier == Tier::Scraped,
        f.source@ == source@,
        f.debt matches Some(d) && d@ == debt@,
{
    Fact {
        id: id.to_owned(),
        value: value.to_owned(),
        tier: Tier::Scraped,
        source: source.to_owned(),
        debt: Some(debt.to_owned()),
    }
}

/// The form suffix of an id: `#v` three-part SemVer, `#vminor` its
/// major.minor, `#digits` a bare integer, `#schemaver` a report id
/// `ce.<name>/<ver>`.
#[derive(Clone, Copy, Debug, PartialEq, Eq, Structural)]
pub enum Form {
    V,
    VMinor,
    Digits,
    SchemaVer,
}

/// What follows the last `#` of an id, if it has one.
pub open spec fn suffix(id: Chars) -> Option<Chars> {
    match rindex(id, '#') {
        Some(i) => Some(id.skip(i + 1)),
        None => None,
    }
}

/// The form an id's suffix names, if it names one.
pub open spec fn form_of(id: Chars) -> Option<Form> {
    match suffix(id) {
        Some(s) => if s == "v"@ {
            Some(Form::V)
        } else if s == "vminor"@ {
            Some(Form::VMinor)
        } else if s == "digits"@ {
            Some(Form::Digits)
        } else if s == "schemaver"@ {
            Some(Form::SchemaVer)
        } else {
            None
        },
        None => None,
    }
}

/// `parts` non-empty all-digit groups joined by `.`.
pub open spec fn dotted_spec(value: Chars, parts: nat) -> bool {
    let groups = split(value, '.');
    &&& groups.len() == parts
    &&& forall|g: int|
        0 <= g < groups.len() ==> #[trigger] groups[g].len() > 0 && all_digits(groups[g])
}

/// A report-id family name: lowercase ASCII, digits and `-`.
pub open spec fn name_char(c: char) -> bool {
    is_lower(c) || is_digit(c) || c == '-'
}

/// `ce.<name>/<ver>`: a non-empty name of name characters before the
/// first `/`, a version of one or three dotted groups after it.
pub open spec fn schemaver_spec(value: Chars) -> bool {
    let pre = "ce."@;
    &&& starts(value, pre)
    &&& index_from(value.skip(pre.len() as int), '/', 0) is Some
    &&& {
        let rest = value.skip(pre.len() as int);
        let k = index_from(rest, '/', 0)->0;
        let name = rest.take(k);
        let ver = rest.skip(k + 1);
        &&& name.len() > 0
        &&& forall|i: int| 0 <= i < name.len() ==> name_char(#[trigger] name[i])
        &&& (dotted_spec(ver, 1) || dotted_spec(ver, 3))
    }
}

pub open spec fn token_char_spec(form: Form, c: char) -> bool {
    match form {
        Form::V | Form::VMinor => is_digit(c) || c == '.',
        Form::Digits => is_digit(c),
        Form::SchemaVer => is_alnum(c) || c == '.' || c == '/' || c == '-',
    }
}

pub open spec fn admits_spec(form: Form, value: Chars) -> bool {
    match form {
        Form::V => dotted_spec(value, 3),
        Form::VMinor => dotted_spec(value, 2),
        Form::Digits => dotted_spec(value, 1),
        Form::SchemaVer => schemaver_spec(value),
    }
}

/// What follows the last `#` of `id`.
pub fn id_suffix(id: &[char]) -> (r: Option<Vec<char>>)
    ensures
        match suffix(id@) {
            Some(s) => r matches Some(v) && v@ == s,
            None => r is None,
        },
{
    proof {
        lemma_rindex_to(id@, '#', id@.len() as int);
    }
    let n = id.len();
    match rfind_char(id, '#') {
        Some(i) => {
            assert(i < n);
            let v = slice_vec(id, i + 1, n);
            assert(v@ =~= id@.skip(i + 1));
            Some(v)
        },
        None => None,
    }
}

/// The form an id names, if any.
pub fn form_named(id: &str) -> (r: Option<Form>)
    ensures
        r == form_of(id@),
{
    let cs = chars_of(id);
    match id_suffix(&cs) {
        Some(s) => {
            if same(&s, &chars_of("v")) {
                Some(Form::V)
            } else if same(&s, &chars_of("vminor")) {
                Some(Form::VMinor)
            } else if same(&s, &chars_of("digits")) {
                Some(Form::Digits)
            } else if same(&s, &chars_of("schemaver")) {
                Some(Form::SchemaVer)
            } else {
                None
            }
        },
        None => None,
    }
}

impl Form {
    /// The form an id's `#form` suffix names.
    pub fn of(id: &str) -> (f: Form)
        requires
            form_of(id@) is Some,
        ensures
            Some(f) == form_of(id@),
    {
        match form_named(id) {
            Some(f) => f,
            None => Form::V,
        }
    }

    /// Is `c` part of a token of this form? A chip span is read as
    /// maximal runs of these characters.
    pub fn token_char(self, c: char) -> (b: bool)
        ensures
            b == token_char_spec(self, c),
    {
        match self {
            Form::V | Form::VMinor => digit(c) || c == '.',
            Form::Digits => digit(c),
            Form::SchemaVer => alnum(c) || c == '.' || c == '/' || c == '-',
        }
    }

    /// Does `value` have this form's shape?
    pub fn admits(self, value: &str) -> (b: bool)
        ensures
            b == admits_spec(self, value@),
    {
        let v = chars_of(value);
        match self {
            Form::V => dotted(&v, 3),
            Form::VMinor => dotted(&v, 2),
            Form::Digits => dotted(&v, 1),
            Form::SchemaVer => schemaver(&v),
        }
    }
}

/// `parts` non-empty all-digit groups joined by `.`.
pub fn dotted(value: &[char], parts: usize) -> (b: bool)
    ensures
        b == dotted_spec(value@, parts as nat),
{
    let groups = split_char(value, '.');
    let ghost gs = groups@.map_values(|p: Vec<char>| p@);
    if groups.len() != parts {
        return false;
    }
    let mut i: usize = 0;
    while i < groups.len()
        invariant
            gs == groups@.map_values(|p: Vec<char>| p@),
            gs == split(value@, '.'),
            i <= groups@.len(),
            forall|g: int| 0 <= g < i ==> #[trigger] gs[g].len() > 0 && all_digits(gs[g]),
        decreases groups.len() - i,
    {
        assert(gs[i as int] == groups@[i as int]@);
        if groups[i].len() == 0 || !digits_only_vec(&groups[i]) {
            return false;
        }
        i += 1;
    }
    true
}

fn digits_only_vec(v: &Vec<char>) -> (b: bool)
    ensures
        b == all_digits(v@),
{
    crate::text::digits_only(v.as_slice())
}

/// A report id: `ce.<name>/<ver>`.
#[verifier::loop_isolation(false)]
pub fn schemaver(value: &[char]) -> (b: bool)
    ensures
        b == schemaver_spec(value@),
{
    let pre = chars_of("ce.");
    if !starts_with(value, &pre) {
        return false;
    }
    let rest = slice_vec(value, pre.len(), value.len());
    assert(rest@ =~= value@.skip(pre@.len() as int));
    let k = match find_char(&rest, '/') {
        Some(k) => k,
        None => return false,
    };
    proof {
        lemma_index_from(rest@, '/', 0);
    }
    let name = slice_vec(&rest, 0, k);
    let ver = slice_vec(&rest, k + 1, rest.len());
    assert(name@ =~= rest@.take(k as int));
    assert(ver@ =~= rest@.skip(k + 1));
    if name.len() == 0 {
        return false;
    }
    let mut i: usize = 0;
    while i < name.len()
        invariant
            i <= name@.len(),
            forall|j: int| 0 <= j < i ==> name_char(#[trigger] name@[j]),
        decreases name.len() - i,
    {
        let c = name[i];
        if !(('a' <= c && c <= 'z') || digit(c) || c == '-') {
            assert(!name_char(name@[i as int]));
            return false;
        }
        i += 1;
    }
    dotted(&ver, 1) || dotted(&ver, 3)
}

/// How many facts of a list ride the scraped tier.
pub open spec fn scraped_in(facts: Seq<Fact>) -> nat
    decreases facts.len(),
{
    if facts.len() == 0 {
        0
    } else {
        scraped_in(facts.drop_last()) + if facts.last().tier == Tier::Scraped {
            1nat
        } else {
            0nat
        }
    }
}

/// The scraped facts of a registry — the ratchet that only goes down.
pub fn scraped_count(registry: &[Fact]) -> (n: usize)
    ensures
        n == scraped_in(registry@),
{
    let mut n: usize = 0;
    let mut i: usize = 0;
    while i < registry.len()
        invariant
            i <= registry@.len(),
            n == scraped_in(registry@.take(i as int)),
            n <= i,
        decreases registry.len() - i,
    {
        assert(registry@.take(i + 1).drop_last() =~= registry@.take(i as int));
        if registry[i].tier == Tier::Scraped {
            n += 1;
        }
        i += 1;
    }
    assert(registry@.take(registry@.len() as int) =~= registry@);
    n
}

/// The first fact of a list with this id.
pub open spec fn lookup(facts: Seq<Fact>, id: Chars) -> Option<Fact>
    decreases facts.len(),
{
    if facts.len() == 0 {
        None
    } else if facts[0].id@ == id {
        Some(facts[0])
    } else {
        lookup(facts.drop_first(), id)
    }
}

/// The rendered value of one id; an unknown id is a refusal, never an
/// empty string a document could carry (`id` is a registered one).
pub fn resolve(registry: &[Fact], id: &str) -> (r: String)
    requires
        lookup(registry@, id@) is Some,
    ensures
        r@ == lookup(registry@, id@)->0.value@,
{
    let want = chars_of(id);
    let mut i: usize = 0;
    assert(registry@.skip(0) =~= registry@);
    while i < registry.len()
        invariant
            i <= registry@.len(),
            want@ == id@,
            lookup(registry@, id@) == lookup(registry@.skip(i as int), id@),
        decreases registry.len() - i,
    {
        assert(registry@.skip(i as int).drop_first() =~= registry@.skip(i + 1));
        let have = chars_of(registry[i].id.as_str());
        if same(&have, &want) {
            return registry[i].value.clone();
        }
        i += 1;
    }
    proof {
        assert(registry@.skip(i as int) =~= Seq::<Fact>::empty());
    }
    String::new()
}

/// A registered fact is well formed: its id names a form, its value has
/// that form's shape, and it carries a debt line exactly when scraped.
pub open spec fn fact_ok(f: Fact) -> bool {
    &&& form_of(f.id@) is Some
    &&& admits_spec(form_of(f.id@)->0, f.value@)
    &&& (f.tier == Tier::Scraped) == (f.debt is Some)
}

/// No two facts of a list share an id.
pub open spec fn ids_unique(s: Seq<Fact>) -> bool {
    forall|i: int, j: int| 0 <= i < s.len() && 0 <= j < s.len() && i != j ==> (#[trigger] s[i]).id@
        != (#[trigger] s[j]).id@
}

/// The facts of a list in id order.
pub open spec fn id_sorted(s: Seq<Fact>) -> bool {
    forall|i: int, j: int| 0 <= i < j < s.len() ==> lex_le((#[trigger] s[i]).id@, (#[trigger] s[j]).id@)
}

/// Why a list of facts is no registry.
#[derive(Debug)]
pub enum RegistryError {
    /// Two facts share an id.
    Duplicate { id: String },
    /// An id with no known `#form` suffix.
    NoForm { id: String },
    /// A value not shaped like its id's form.
    Shape { id: String, value: String },
    /// A debt line off the scraped tier, or a scraped fact without one.
    Debt { id: String },
}

/// Two facts of one list that share an id sit, as two facts sharing
/// that id, in any list with the same multiset of facts.
pub proof fn lemma_dup_in_perm(a: Seq<Fact>, b: Seq<Fact>, i: int, j: int)
    requires
        a.to_multiset() == b.to_multiset(),
        0 <= i < b.len(),
        0 <= j < b.len(),
        i != j,
        b[i].id@ == b[j].id@,
    ensures
        exists|p: int, q: int|
            0 <= p < a.len() && 0 <= q < a.len() && p != q && (#[trigger] a[p]).id@ == b[i].id@
                && (#[trigger] a[q]).id@ == b[i].id@,
{
    a.to_multiset_ensures();
    b.to_multiset_ensures();
    assert(b.contains(b[i]));
    assert(b.to_multiset().count(b[i]) > 0);
    assert(a.contains(b[i]));
    let p = choose|p: int| 0 <= p < a.len() && a[p] == b[i];
    if b[i] == b[j] {
        let r = b.remove(i);
        let jj = if j < i {
            j
        } else {
            j - 1
        };
        assert(r[jj] == b[j]);
        r.to_multiset_ensures();
        assert(r.contains(b[j]));
        assert(r.to_multiset().count(b[i]) > 0);
        assert(b.to_multiset().count(b[i]) == r.to_multiset().count(b[i]) + 1);
        let ra = a.remove(p);
        ra.to_multiset_ensures();
        assert(a.to_multiset().count(b[i]) == ra.to_multiset().count(b[i]) + 1);
        assert(ra.to_multiset().count(b[i]) > 0);
        assert(ra.contains(b[i]));
        let q = choose|q: int| 0 <= q < ra.len() && ra[q] == b[i];
        let qq = if q < p {
            q
        } else {
            q + 1
        };
        assert(a[qq] == b[i]);
        assert(a[p].id@ == b[i].id@ && a[qq].id@ == b[i].id@);
    } else {
        assert(b.contains(b[j]));
        assert(b.to_multiset().count(b[j]) > 0);
        assert(a.contains(b[j]));
        let q = choose|q: int| 0 <= q < a.len() && a[q] == b[j];
        assert(a[p].id@ == b[i].id@ && a[q].id@ == b[i].id@);
    }
}

/// Equal multisets of facts agree on whether their ids are unique.
pub proof fn lemma_unique_ids_perm(a: Seq<Fact>, b: Seq<Fact>)
    requires
        a.to_multiset() == b.to_multiset(),
        ids_unique(a),
    ensures
        ids_unique(b),
{
    assert forall|i: int, j: int|
        0 <= i < b.len() && 0 <= j < b.len() && i != j implies (#[trigger] b[i]).id@
        != (#[trigger] b[j]).id@ by {
        if b[i].id@ == b[j].id@ {
            lemma_dup_in_perm(a, b, i, j);
        }
    }
}

/// Fact `i` of a list does not share its id with the one before.
pub open spec fn apart(s: Seq<Fact>, i: int) -> bool {
    s[i].id@ != s[i - 1].id@
}

/// An id-sorted list whose neighbours never share an id has unique ids.
pub proof fn lemma_sorted_distinct(s: Seq<Fact>)
    requires
        id_sorted(s),
        forall|i: int| 0 < i < s.len() ==> #[trigger] apart(s, i),
    ensures
        ids_unique(s),
{
    assert forall|i: int, j: int|
        0 <= i < s.len() && 0 <= j < s.len() && i != j implies (#[trigger] s[i]).id@
        != (#[trigger] s[j]).id@ by {
        let (lo, hi) = if i < j {
            (i, j)
        } else {
            (j, i)
        };
        if s[lo].id@ == s[hi].id@ {
            assert(apart(s, lo + 1));
            assert(lex_le(s[lo].id@, s[lo + 1].id@));
            if lo + 1 < hi {
                assert(lex_le(s[lo + 1].id@, s[hi].id@));
            }
            lemma_lex_antisym(s[lo].id@, s[lo + 1].id@);
        }
    }
}

/// The facts sorted by id: the same facts, each as often.
pub(crate) fn sort_facts(v: Vec<Fact>) -> (out: Vec<Fact>)
    ensures
        id_sorted(out@),
        out@.to_multiset() == v@.to_multiset(),
{
    let ghost start = v@.to_multiset();
    let mut rest = v;
    let mut out: Vec<Fact> = Vec::new();
    proof {
        broadcast use vstd::seq_lib::group_to_multiset_ensures;
        assert(out@.to_multiset() =~= vstd::multiset::Multiset::<Fact>::empty());
        assert(vstd::multiset::Multiset::<Fact>::empty().add(rest@.to_multiset()) =~= rest@.to_multiset());
    }
    while rest.len() > 0
        invariant
            id_sorted(out@),
            forall|i: int, j: int|
                0 <= i < out@.len() && 0 <= j < rest@.len() ==> lex_le(
                    (#[trigger] out@[i]).id@,
                    (#[trigger] rest@[j]).id@,
                ),
            out@.to_multiset().add(rest@.to_multiset()) == start,
        decreases rest.len(),
    {
        let mut m: usize = 0;
        let mut j: usize = 1;
        proof {
            lemma_lex_refl(rest@[0].id@);
        }
        while j < rest.len()
            invariant
                0 < rest@.len(),
                m < rest@.len(),
                1 <= j <= rest@.len(),
                forall|k: int| 0 <= k < j ==> lex_le(rest@[m as int].id@, (#[trigger] rest@[k]).id@),
            decreases rest.len() - j,
        {
            if !str_le(rest[m].id.as_str(), rest[j].id.as_str()) {
                proof {
                    lemma_lex_total(rest@[m as int].id@, rest@[j as int].id@);
                    assert forall|k: int| 0 <= k < j + 1 implies lex_le(
                        rest@[j as int].id@,
                        (#[trigger] rest@[k]).id@,
                    ) by {
                        if k < j {
                            lemma_lex_trans(rest@[j as int].id@, rest@[m as int].id@, rest@[k].id@);
                        } else {
                            lemma_lex_refl(rest@[k].id@);
                        }
                    }
                }
                m = j;
            }
            j += 1;
        }
        let ghost old_out = out@;
        let ghost old_rest = rest@;
        let x = rest.remove(m);
        out.push(x);
        proof {
            broadcast use vstd::seq_lib::group_to_multiset_ensures;
            assert(old_rest.to_multiset() =~= rest@.to_multiset().insert(x));
            assert(out@.to_multiset() =~= old_out.to_multiset().insert(x));
            assert(out@.to_multiset().add(rest@.to_multiset()) =~= old_out.to_multiset().add(
                old_rest.to_multiset(),
            ));
            assert forall|i: int, k: int| 0 <= i < k < out@.len() implies lex_le(
                (#[trigger] out@[i]).id@,
                (#[trigger] out@[k]).id@,
            ) by {
                if k == out@.len() - 1 {
                    assert(lex_le(old_out[i].id@, old_rest[m as int].id@));
                } else {
                    assert(old_out[i] == out@[i] && old_out[k] == out@[k]);
                }
            }
            assert forall|i: int, k: int| 0 <= i < out@.len() && 0 <= k < rest@.len() implies lex_le(
                (#[trigger] out@[i]).id@,
                (#[trigger] rest@[k]).id@,
            ) by {
                let kk = if k < m { k } else { k + 1 };
                assert(rest@[k] == old_rest[kk]);
                if i < out@.len() - 1 {
                    assert(out@[i] == old_out[i]);
                }
            }
        }
    }
    proof {
        broadcast use vstd::seq_lib::group_to_multiset_ensures;
        assert(rest@.to_multiset() =~= vstd::multiset::Multiset::<Fact>::empty());
        assert(out@.to_multiset().add(vstd::multiset::Multiset::<Fact>::empty()) =~= out@.to_multiset());
    }
    out
}

/// Every fact, id-sorted; ids unique, each value admitted by its form,
/// debt present exactly on the scraped tier. `all` is every fact the
/// families read; any that breaks the rules is a refusal naming it.
pub fn registry(all: Vec<Fact>) -> (r: Result<Vec<Fact>, RegistryError>)
    ensures
        r is Ok <==> ids_unique(all@) && forall|i: int| 0 <= i < all@.len() ==> fact_ok(#[trigger] all@[i]),
        r matches Ok(v) ==> v@.to_multiset() == all@.to_multiset() && id_sorted(v@) && ids_unique(v@),
        r matches Err(RegistryError::Duplicate { id }) ==> exists|i: int, j: int|
            0 <= i < all@.len() && 0 <= j < all@.len() && i != j && (#[trigger] all@[i]).id@ == id@
                && (#[trigger] all@[j]).id@ == id@,
        r matches Err(RegistryError::NoForm { id }) ==> exists|i: int|
            0 <= i < all@.len() && (#[trigger] all@[i]).id@ == id@ && form_of(id@) is None,
        r matches Err(RegistryError::Shape { id, value }) ==> exists|i: int|
            0 <= i < all@.len() && (#[trigger] all@[i]).id@ == id@ && all@[i].value@ == value@
                && form_of(id@) is Some && !admits_spec(form_of(id@)->0, value@),
        r matches Err(RegistryError::Debt { id }) ==> exists|i: int|
            0 <= i < all@.len() && (#[trigger] all@[i]).id@ == id@ && (all@[i].tier
                == Tier::Scraped) != (all@[i].debt is Some),
{
    let ghost orig = all@;
    let s = sort_facts(all);
    proof {
        s@.to_multiset_ensures();
        orig.to_multiset_ensures();
        assert forall|x: Fact| s@.contains(x) <==> orig.contains(x) by {
            assert(s@.contains(x) <==> s@.to_multiset().count(x) > 0);
            assert(orig.contains(x) <==> orig.to_multiset().count(x) > 0);
        }
    }
    let mut k: usize = 0;
    while k < s.len()
        invariant
            orig == all@,
            k <= s@.len(),
            id_sorted(s@),
            s@.to_multiset() == orig.to_multiset(),
            forall|x: Fact| s@.contains(x) <==> orig.contains(x),
            forall|i: int| 0 <= i < k ==> fact_ok(#[trigger] s@[i]),
            forall|i: int| 0 < i < k ==> #[trigger] apart(s@, i),
        decreases s.len() - k,
    {
        let f = &s[k];
        assert(s@.contains(s@[k as int]));
        assert(orig.contains(s@[k as int]));
        let ghost oi = choose|oi: int| 0 <= oi < orig.len() && orig[oi] == s@[k as int];
        if k > 0 && same(&chars_of(s[k - 1].id.as_str()), &chars_of(f.id.as_str())) {
            proof {
                lemma_dup_in_perm(orig, s@, k - 1, k as int);
                let (p, q) = choose|p: int, q: int|
                    0 <= p < orig.len() && 0 <= q < orig.len() && p != q && (#[trigger] orig[p]).id@
                        == s@[k - 1].id@ && (#[trigger] orig[q]).id@ == s@[k - 1].id@;
                assert(!ids_unique(orig));
            }
            return Err(RegistryError::Duplicate { id: f.id.clone() });
        }
        let fm = match form_named(f.id.as_str()) {
            Some(fm) => fm,
            None => {
                assert(!fact_ok(orig[oi]));
                return Err(RegistryError::NoForm { id: f.id.clone() });
            },
        };
        if !fm.admits(f.value.as_str()) {
            assert(!fact_ok(orig[oi]));
            return Err(RegistryError::Shape { id: f.id.clone(), value: f.value.clone() });
        }
        if (f.tier == Tier::Scraped) != f.debt.is_some() {
            assert(!fact_ok(orig[oi]));
            return Err(RegistryError::Debt { id: f.id.clone() });
        }
        assert(k > 0 ==> apart(s@, k as int));
        k += 1;
    }
    proof {
        lemma_sorted_distinct(s@);
        orig.to_multiset_ensures();
        lemma_unique_ids_perm(s@, orig);
        assert forall|i: int| 0 <= i < orig.len() implies fact_ok(#[trigger] orig[i]) by {
            assert(orig.contains(orig[i]));
            assert(s@.contains(orig[i]));
        }
    }
    Ok(s)
}

/// Every fact of a registry resolves, and to its own value: with ids
/// unique, looking a fact's id up finds that fact.
pub proof fn lemma_every_fact_resolves(reg: Seq<Fact>)
    requires
        ids_unique(reg),
    ensures
        forall|i: int| 0 <= i < reg.len() ==> lookup(reg, (#[trigger] reg[i]).id@) == Some(reg[i]),
    decreases reg.len(),
{
    if reg.len() > 0 {
        let rest = reg.drop_first();
        assert forall|i: int, j: int|
            0 <= i < rest.len() && 0 <= j < rest.len() && i != j implies (#[trigger] rest[i]).id@ != (
            #[trigger] rest[j]).id@ by {
            assert(rest[i] == reg[i + 1] && rest[j] == reg[j + 1]);
        }
        lemma_every_fact_resolves(rest);
        assert forall|i: int| 0 <= i < reg.len() implies lookup(reg, (#[trigger] reg[i]).id@) == Some(reg[i]) by {
            if i > 0 {
                assert(reg[i] == rest[i - 1]);
                assert(reg[0].id@ != reg[i].id@);
            }
        }
    }
}

} // verus!
