//! The ledger half of the duplicate-write replay: what one intercept
//! row records — its reading against the parent baseline and its fate
//! once the commit is whole — the key a fire is remembered under, and
//! the counts the report folds the rows into.

use crate::text::{
    chars_of, concat, dec_chars, decimal, lemma_lex_antisym, lemma_lex_total, lex_le, push_range, same, str_le, string_of, Chars,
};
use vstd::prelude::*;

verus! {

/// What the parent baseline says about one intercept.
#[derive(Debug, Clone, Copy, PartialEq, Eq, Structural)]
pub enum Class {
    /// the parent shared nothing with this twin: the pair is new here
    New,
    /// the parent shared less: the edit grew the duplication
    Extension,
    /// the parent shared as much or more: the run moved, nothing grew
    Drift,
}

/// The class of a (parent-shared, child-shared) token count pair.
pub open spec fn class_spec(parent: nat, child: nat) -> Class {
    if parent == 0 {
        Class::New
    } else if child > parent {
        Class::Extension
    } else {
        Class::Drift
    }
}

impl Class {
    /// Parent-shared against child-shared tokens with one twin.
    pub fn of(parent: usize, child: usize) -> (c: Class)
        ensures
            c == class_spec(parent as nat, child as nat),
    {
        if parent == 0 {
            Class::New
        } else if child > parent {
            Class::Extension
        } else {
            Class::Drift
        }
    }
}

/// The name a class prints under.
pub open spec fn class_name(c: Class) -> Chars {
    match c {
        Class::New => "New"@,
        Class::Extension => "Extension"@,
        Class::Drift => "Drift"@,
    }
}

/// One intercept: the write, its twin, the shared tokens before and
/// after, what the parent says of it, and its fate.
pub struct Intercept {
    pub commit: String,
    pub rel: String,
    pub twin: String,
    pub parent: usize,
    pub child: usize,
    pub novel: usize,
    pub class: Class,
    pub refire: bool,
    pub twin_status: Option<char>,
    /// Whether the run with this twin is still in the tree once the
    /// whole commit is applied. `false` is the write-first move
    /// mid-state — split, fold, rename.
    pub landed: bool,
}

/// An intercept's report line.
pub open spec fn row_spec(r: Intercept) -> Chars {
    r.commit@ + " "@ + r.rel@ + " -> "@ + r.twin@ + "  shared "@ + dec_chars(r.parent as nat)
        + "→"@ + dec_chars(r.child as nat) + " novel "@ + dec_chars(r.novel as nat) + "  "@
        + class_name(r.class) + " "@ + (if r.refire {
        "refire"@
    } else {
        "first"@
    }) + (match r.twin_status {
        Some(s) => " twin:"@ + seq![s],
        None => Seq::empty(),
    }) + " "@ + (if r.landed {
        "landed"@
    } else {
        "mid-state"@
    })
}

fn append(v: &mut Vec<char>, s: &str)
    ensures
        final(v)@ == old(v)@ + s@,
{
    let c = chars_of(s);
    push_range(v, &c, 0, c.len());
    assert(c@.subrange(0, c@.len() as int) =~= c@);
}

fn append_chars(v: &mut Vec<char>, c: &Vec<char>)
    ensures
        final(v)@ == old(v)@ + c@,
{
    push_range(v, c, 0, c.len());
    assert(c@.subrange(0, c@.len() as int) =~= c@);
}

impl Intercept {
    /// The intercept's report line.
    pub fn row(&self) -> (s: String)
        ensures
            s@ == row_spec(*self),
    {
        let mut v: Vec<char> = Vec::new();
        append(&mut v, self.commit.as_str());
        append(&mut v, " ");
        append(&mut v, self.rel.as_str());
        append(&mut v, " -> ");
        append(&mut v, self.twin.as_str());
        append(&mut v, "  shared ");
        append_chars(&mut v, &decimal(self.parent as u64));
        append(&mut v, "→");
        append_chars(&mut v, &decimal(self.child as u64));
        append(&mut v, " novel ");
        append_chars(&mut v, &decimal(self.novel as u64));
        append(&mut v, "  ");
        match self.class {
            Class::New => append(&mut v, "New"),
            Class::Extension => append(&mut v, "Extension"),
            Class::Drift => append(&mut v, "Drift"),
        }
        append(&mut v, " ");
        if self.refire {
            append(&mut v, "refire");
        } else {
            append(&mut v, "first");
        }
        match self.twin_status {
            Some(st) => {
                append(&mut v, " twin:");
                v.push(st);
            },
            None => {},
        }
        append(&mut v, " ");
        if self.landed {
            append(&mut v, "landed");
        } else {
            append(&mut v, "mid-state");
        }
        proof {
            let r = *self;
            let tail = match r.twin_status {
                Some(s) => " twin:"@ + seq![s],
                None => Seq::<char>::empty(),
            };
            assert(v@ =~= row_spec(r));
        }
        string_of(&v)
    }
}

/// The unordered file pair a fire is remembered under: the two names,
/// the one that sorts first in front.
pub open spec fn pair_spec(a: Chars, b: Chars) -> (Chars, Chars) {
    if lex_le(a, b) {
        (a, b)
    } else {
        (b, a)
    }
}

/// Unordered file pair — the key a fire is remembered under.
pub fn pair(a: &str, b: &str) -> (p: (String, String))
    ensures
        (p.0@, p.1@) == pair_spec(a@, b@),
{
    if str_le(a, b) {
        (string_of(&chars_of(a)), string_of(&chars_of(b)))
    } else {
        (string_of(&chars_of(b)), string_of(&chars_of(a)))
    }
}

/// A pair is unordered: both orders of two names give one key, and its
/// first name sorts no later than its second.
pub proof fn lemma_pair_unordered(a: Chars, b: Chars)
    ensures
        pair_spec(a, b) == pair_spec(b, a),
        lex_le(pair_spec(a, b).0, pair_spec(a, b).1),
{
    lemma_lex_total(a, b);
    if lex_le(a, b) && lex_le(b, a) {
        lemma_lex_antisym(a, b);
    }
}

/// The edit event an intercept belongs to: its commit and file.
pub open spec fn event(r: Intercept) -> (Chars, Chars) {
    (r.commit@, r.rel@)
}

pub open spec fn events(rows: Seq<Intercept>) -> Seq<(Chars, Chars)> {
    rows.map_values(|r: Intercept| event(r))
}

pub open spec fn landed_f() -> spec_fn(Intercept) -> bool {
    |r: Intercept| r.landed
}

/// How many rows satisfy `p`.
pub open spec fn how_many(rows: Seq<Intercept>, p: spec_fn(Intercept) -> bool) -> nat {
    rows.filter(p).len()
}

pub open spec fn class_is(c: Class) -> spec_fn(Intercept) -> bool {
    |r: Intercept| r.class == c
}

pub open spec fn refire_f() -> spec_fn(Intercept) -> bool {
    |r: Intercept| r.refire
}

pub open spec fn first_f() -> spec_fn(Intercept) -> bool {
    |r: Intercept| !r.refire
}

pub open spec fn twin_changed_f() -> spec_fn(Intercept) -> bool {
    |r: Intercept| r.twin_status is Some
}

pub open spec fn twin_is(s: char) -> spec_fn(Intercept) -> bool {
    |r: Intercept| r.twin_status == Some(s)
}

pub open spec fn mid_f() -> spec_fn(Intercept) -> bool {
    |r: Intercept| !r.landed
}

pub open spec fn mid_twin_f() -> spec_fn(Intercept) -> bool {
    |r: Intercept| !r.landed && r.twin_status is Some
}

pub open spec fn mid_refire_f() -> spec_fn(Intercept) -> bool {
    |r: Intercept| !r.landed && r.refire
}

/// The numbers the replay report quotes, over its rows.
pub struct Tally {
    /// Distinct edit events with at least one intercept.
    pub hit: usize,
    pub rows: usize,
    pub new: usize,
    pub extension: usize,
    pub drift: usize,
    pub first: usize,
    pub refire: usize,
    /// Rows whose twin changed in the same commit, and how.
    pub twin_changed: usize,
    pub added: usize,
    pub modified: usize,
    pub deleted: usize,
    /// Rows still duplicate once the commit is whole, and their events.
    pub landed: usize,
    pub landed_events: usize,
    /// Write-first mid-states, those with the twin changed in the same
    /// commit, and the re-fires among them.
    pub mid_state: usize,
    pub mid_twin_changed: usize,
    pub mid_refire: usize,
}

pub open spec fn tally_spec(t: Tally, rows: Seq<Intercept>) -> bool {
    &&& t.hit == events(rows).to_set().len()
    &&& t.rows == rows.len()
    &&& t.new == how_many(rows, class_is(Class::New))
    &&& t.extension == how_many(rows, class_is(Class::Extension))
    &&& t.drift == how_many(rows, class_is(Class::Drift))
    &&& t.first == how_many(rows, first_f())
    &&& t.refire == how_many(rows, refire_f())
    &&& t.twin_changed == how_many(rows, twin_changed_f())
    &&& t.added == how_many(rows, twin_is('A'))
    &&& t.modified == how_many(rows, twin_is('M'))
    &&& t.deleted == how_many(rows, twin_is('D'))
    &&& t.landed == how_many(rows, landed_f())
    &&& t.landed_events == events(rows.filter(landed_f())).to_set().len()
    &&& t.mid_state == how_many(rows, mid_f())
    &&& t.mid_twin_changed == how_many(rows, mid_twin_f())
    &&& t.mid_refire == how_many(rows, mid_refire_f())
}

/// How many rows satisfy a predicate, counted one row at a time.
fn step_count(n: usize, rows: &Vec<Intercept>, i: usize, Ghost(p): Ghost<spec_fn(Intercept) -> bool>, hit: bool) -> (m:
    usize)
    requires
        i < rows@.len(),
        n == rows@.take(i as int).filter(p).len(),
        hit == p(rows@[i as int]),
    ensures
        m == rows@.take(i + 1).filter(p).len(),
{
    proof {
        reveal(Seq::filter);
        assert(rows@.take(i + 1).drop_last() =~= rows@.take(i as int));
        assert(rows@.take(i + 1).last() == rows@[i as int]);
        rows@.take(i as int).lemma_filter_len(p);
    }
    assert(n <= i);
    if hit {
        assert(i < rows.len());
        n + 1
    } else {
        n
    }
}

/// How many distinct keys a list holds.
fn distinct(keys: &Vec<(String, String)>) -> (n: usize)
    ensures
        n == crate::text::pairs_view(keys@).to_set().len(),
{
    let ghost kv = crate::text::pairs_view(keys@);
    let mut seen: Vec<(String, String)> = Vec::new();
    let mut i: usize = 0;
    while i < keys.len()
        invariant
            i <= keys@.len(),
            kv == crate::text::pairs_view(keys@),
            crate::text::pairs_view(seen@).no_duplicates(),
            crate::text::pairs_view(seen@).to_set() == kv.take(i as int).to_set(),
            seen@.len() <= i,
        decreases keys.len() - i,
    {
        let a = chars_of(keys[i].0.as_str());
        let b = chars_of(keys[i].1.as_str());
        let ghost k = (a@, b@);
        assert(kv[i as int] == k);
        let ghost sv = crate::text::pairs_view(seen@);
        let mut found = false;
        let mut j: usize = 0;
        while j < seen.len() && !found
            invariant
                j <= seen@.len(),
                k == (a@, b@),
                sv == crate::text::pairs_view(seen@),
                found ==> sv.contains(k),
                !found ==> forall|x: int| 0 <= x < j ==> sv[x] != k,
            decreases seen.len() - j,
        {
            let x = chars_of(seen[j].0.as_str());
            let y = chars_of(seen[j].1.as_str());
            assert(sv[j as int] == (x@, y@));
            if same(&x, &a) && same(&y, &b) {
                assert(sv[j as int] == k);
                found = true;
            }
            j += 1;
        }
        proof {
            assert(kv.take(i + 1) =~= kv.take(i as int) + seq![k]);
            Seq::lemma_to_set_insert_commutes(kv.take(i as int), k);
        }
        if !found {
            seen.push((string_of(&a), string_of(&b)));
            proof {
                assert(crate::text::pairs_view(seen@) =~= sv + seq![k]);
                Seq::lemma_to_set_insert_commutes(sv, k);
                assert(!sv.contains(k));
                assert forall|x: int, y: int|
                    0 <= x < y < crate::text::pairs_view(seen@).len() implies crate::text::pairs_view(
                    seen@,
                )[x] != crate::text::pairs_view(seen@)[y] by {
                    if y == sv.len() {
                        assert(crate::text::pairs_view(seen@)[x] == sv[x]);
                    }
                }
            }
        } else {
            proof {
                assert(sv.to_set().insert(k) =~= sv.to_set());
            }
        }
        i += 1;
    }
    proof {
        assert(kv.take(keys@.len() as int) =~= kv);
        crate::text::pairs_view(seen@).unique_seq_to_set();
    }
    seen.len()
}

fn copy(s: &String) -> (out: String)
    ensures
        out@ == s@,
{
    string_of(&chars_of(s.as_str()))
}

/// The numbers the replay report folds its rows into.
pub fn tally(rows: &Vec<Intercept>) -> (t: Tally)
    ensures
        tally_spec(t, rows@),
        t.new + t.extension + t.drift == t.rows,
        t.first + t.refire == t.rows,
        t.landed + t.mid_state == t.rows,
        t.added + t.modified + t.deleted <= t.twin_changed,
        t.mid_twin_changed <= t.mid_state,
        t.mid_refire <= t.mid_state,
        t.landed_events <= t.hit,
{
    let ghost rs = rows@;
    let mut t = Tally {
        hit: 0,
        rows: rows.len(),
        new: 0,
        extension: 0,
        drift: 0,
        first: 0,
        refire: 0,
        twin_changed: 0,
        added: 0,
        modified: 0,
        deleted: 0,
        landed: 0,
        landed_events: 0,
        mid_state: 0,
        mid_twin_changed: 0,
        mid_refire: 0,
    };
    let mut all: Vec<(String, String)> = Vec::new();
    let mut landed: Vec<(String, String)> = Vec::new();
    let mut i: usize = 0;
    proof {
        reveal(Seq::filter);
        assert(rs.take(0) =~= Seq::<Intercept>::empty());
    }
    while i < rows.len()
        invariant
            rs == rows@,
            i <= rs.len(),
            t.rows == rs.len(),
            t.new == rs.take(i as int).filter(class_is(Class::New)).len(),
            t.extension == rs.take(i as int).filter(class_is(Class::Extension)).len(),
            t.drift == rs.take(i as int).filter(class_is(Class::Drift)).len(),
            t.first == rs.take(i as int).filter(first_f()).len(),
            t.refire == rs.take(i as int).filter(refire_f()).len(),
            t.twin_changed == rs.take(i as int).filter(twin_changed_f()).len(),
            t.added == rs.take(i as int).filter(twin_is('A')).len(),
            t.modified == rs.take(i as int).filter(twin_is('M')).len(),
            t.deleted == rs.take(i as int).filter(twin_is('D')).len(),
            t.landed == rs.take(i as int).filter(landed_f()).len(),
            t.mid_state == rs.take(i as int).filter(mid_f()).len(),
            t.mid_twin_changed == rs.take(i as int).filter(mid_twin_f()).len(),
            t.mid_refire == rs.take(i as int).filter(mid_refire_f()).len(),
            crate::text::pairs_view(all@) == events(rs.take(i as int)),
            crate::text::pairs_view(landed@) == events(rs.take(i as int).filter(landed_f())),
            t.new + t.extension + t.drift == i,
            t.first + t.refire == i,
            t.landed + t.mid_state == i,
            t.added + t.modified + t.deleted <= t.twin_changed,
            t.mid_twin_changed <= t.mid_state,
            t.mid_refire <= t.mid_state,
        decreases rows.len() - i,
    {
        let r = &rows[i];
        assert(rs[i as int] == *r);
        t.new = step_count(t.new, rows, i, Ghost(class_is(Class::New)), r.class == Class::New);
        t.extension = step_count(t.extension, rows, i, Ghost(class_is(Class::Extension)), r.class == Class::Extension);
        t.drift = step_count(t.drift, rows, i, Ghost(class_is(Class::Drift)), r.class == Class::Drift);
        t.first = step_count(t.first, rows, i, Ghost(first_f()), !r.refire);
        t.refire = step_count(t.refire, rows, i, Ghost(refire_f()), r.refire);
        t.twin_changed = step_count(t.twin_changed, rows, i, Ghost(twin_changed_f()), r.twin_status.is_some());
        t.added = step_count(t.added, rows, i, Ghost(twin_is('A')), r.twin_status == Some('A'));
        t.modified = step_count(t.modified, rows, i, Ghost(twin_is('M')), r.twin_status == Some('M'));
        t.deleted = step_count(t.deleted, rows, i, Ghost(twin_is('D')), r.twin_status == Some('D'));
        t.landed = step_count(t.landed, rows, i, Ghost(landed_f()), r.landed);
        t.mid_state = step_count(t.mid_state, rows, i, Ghost(mid_f()), !r.landed);
        t.mid_twin_changed = step_count(t.mid_twin_changed, rows, i, Ghost(mid_twin_f()), !r.landed && r.twin_status.is_some());
        t.mid_refire = step_count(t.mid_refire, rows, i, Ghost(mid_refire_f()), !r.landed && r.refire);
        let ghost before_all = crate::text::pairs_view(all@);
        let ghost before_landed = crate::text::pairs_view(landed@);
        all.push((copy(&r.commit), copy(&r.rel)));
        if r.landed {
            landed.push((copy(&r.commit), copy(&r.rel)));
        }
        proof {
            reveal(Seq::filter);
            assert(rs.take(i + 1).drop_last() =~= rs.take(i as int));
            assert(rs.take(i + 1).last() == rs[i as int]);
            assert(crate::text::pairs_view(all@) =~= before_all.push(event(rs[i as int])));
            assert(events(rs.take(i + 1)) =~= events(rs.take(i as int)).push(event(rs[i as int])));
            if r.landed {
                assert(rs.take(i + 1).filter(landed_f()) == rs.take(i as int).filter(landed_f()).push(rs[i as int]));
                assert(crate::text::pairs_view(landed@) =~= before_landed.push(event(rs[i as int])));
                assert(events(rs.take(i + 1).filter(landed_f())) =~= events(rs.take(i as int).filter(landed_f())).push(event(rs[i as int])));
            } else {
                assert(rs.take(i + 1).filter(landed_f()) == rs.take(i as int).filter(landed_f()));
            }
        }
        i += 1;
    }
    assert(rs.take(rs.len() as int) =~= rs);
    t.hit = distinct(&all);
    t.landed_events = distinct(&landed);
    proof {
        lemma_landed_events_within(rs);
    }
    t
}

/// The events a landed row belongs to are among the events of all rows.
pub proof fn lemma_landed_events_within(rows: Seq<Intercept>)
    ensures
        events(rows.filter(landed_f())).to_set().len() <= events(rows).to_set().len(),
{
    let a = events(rows.filter(landed_f())).to_set();
    let b = events(rows).to_set();
    assert forall|e: (Chars, Chars)| a.contains(e) implies b.contains(e) by {
        let k = choose|k: int| 0 <= k < events(rows.filter(landed_f())).len() && events(
            rows.filter(landed_f()),
        )[k] == e;
        let r = rows.filter(landed_f())[k];
        rows.lemma_filter_len(landed_f());
        assert(rows.filter(landed_f()).contains(r));
        rows.lemma_filter_contains_rev(landed_f(), r);
        let j = choose|j: int| 0 <= j < rows.len() && rows[j] == r;
        assert(events(rows)[j] == e);
    }
    vstd::seq_lib::seq_to_set_is_finite(events(rows));
    vstd::set_lib::lemma_len_subset(a, b);
}

} // verus!
