//! The frozen sample's draw against its pool: the per-kind counts equal
//! the allocation re-run from the pool, the primaries stand in audit
//! order, the backups in (kind, audit) order, each kind's backups are
//! min(BACKUP_PER_KIND, pool − quota), and every backup ranks below
//! every primary of its kind — the primaries were the top of the rank.

use super::draw::{floor_of, floor_total, floors_f, quota, quota_fits, rests, seats_left};
use super::{BACKUP_PER_KIND, MIN_PER_KIND, TOTAL};
use crate::eval_support::auditgen::{counts, lemma_prefix_le, lemma_sum_nonneg, sum_to, total, weight_keys, weights_f};
use super::Exam;
use crate::eval_support::tally::{entries_view, keys_of, sum_for, sums_fit, tally};
use crate::text::{canonical, concat, slice_vec, starts, starts_with, chars_of, lex_le, pairs_view, same, str_le, string_of, value_for, value_in, views, Chars};
use vstd::prelude::*;

verus! {

/// One drawn row as the draw check reads it: its kind, its rank hash
/// and its audit hash.
pub struct Drawn {
    pub kind: String,
    pub rank: String,
    pub audit: String,
}

/// How many rows are of kind `k`.
pub open spec fn kind_count(rs: Seq<Drawn>, k: Chars) -> nat
    decreases rs.len(),
{
    if rs.len() == 0 {
        0
    } else {
        kind_count(rs.drop_last(), k) + if rs.last().kind@ == k {
            1nat
        } else {
            0nat
        }
    }
}

pub open spec fn pool_kinds(pool: Seq<(String, u64)>) -> Seq<Chars> {
    weight_keys(pool)
}

/// The per-kind tally of the primaries is the allocation: every kind of
/// the pool holds its quota (the tally names no kind it has no row of),
/// and every row is of a pool kind.
pub open spec fn per_kind_ok(rows: Seq<Drawn>, pool: Seq<(String, u64)>) -> bool {
    &&& forall|i: int|
        0 <= i < pool.len() ==> kind_count(rows, #[trigger] pool_kinds(pool)[i]) == quota(counts(pool), i)
            && quota(counts(pool), i) > 0
    &&& forall|j: int| 0 <= j < rows.len() ==> pool_kinds(pool).contains(#[trigger] rows[j].kind@)
}

/// `a` strictly before `b`.
pub open spec fn lex_lt(a: Chars, b: Chars) -> bool {
    lex_le(a, b) && a != b
}

/// Row `i` does not stand before row `i - 1` by audit hash.
pub open spec fn audit_step(rs: Seq<Drawn>, i: int) -> bool {
    lex_le(rs[i - 1].audit@, rs[i].audit@)
}

/// Row `i` does not stand before row `i - 1` by (kind, audit hash).
pub open spec fn backup_step(rs: Seq<Drawn>, i: int) -> bool {
    lex_lt(rs[i - 1].kind@, rs[i].kind@) || (rs[i - 1].kind@ == rs[i].kind@ && lex_le(
        rs[i - 1].audit@,
        rs[i].audit@,
    ))
}

pub open spec fn audit_sorted(rs: Seq<Drawn>) -> bool {
    forall|i: int| 0 < i < rs.len() ==> #[trigger] audit_step(rs, i)
}

pub open spec fn backup_sorted(rs: Seq<Drawn>) -> bool {
    forall|i: int| 0 < i < rs.len() ==> #[trigger] backup_step(rs, i)
}

/// The backups a kind is owed: what its pool holds past its quota, up
/// to BACKUP_PER_KIND.
pub open spec fn backups_owed(pool: Seq<(String, u64)>, i: int) -> int {
    let left = pool[i].1 - quota(counts(pool), i);
    if left < BACKUP_PER_KIND {
        left
    } else {
        BACKUP_PER_KIND as int
    }
}

/// Every backup of kind `k` ranks below every primary of it.
pub open spec fn ranked_below(rows: Seq<Drawn>, bs: Seq<Drawn>, k: Chars) -> bool {
    forall|p: int, b: int|
        0 <= p < rows.len() && 0 <= b < bs.len() && (#[trigger] rows[p]).kind@ == k && (#[trigger] bs[b]).kind@
            == k ==> lex_lt(rows[p].rank@, bs[b].rank@)
}

/// Each kind's backups: as many as it is owed, all ranked below its
/// primaries.
pub open spec fn backups_ok(rows: Seq<Drawn>, bs: Seq<Drawn>, pool: Seq<(String, u64)>) -> bool {
    forall|i: int|
        0 <= i < pool.len() ==> kind_count(bs, #[trigger] pool_kinds(pool)[i]) == backups_owed(pool, i)
            && ranked_below(rows, bs, pool_kinds(pool)[i])
}

/// Why a frozen draw is refused.
#[derive(Debug)]
pub enum DrawFault {
    /// The per-kind counts are not the allocation.
    PerKind,
    /// The primaries are not in audit order.
    Unsorted,
    /// The backups are not in (kind, audit) order.
    BackupsUnsorted,
    /// A kind's backups are not what it is owed.
    Backups { kind: String, have: usize, want: u64 },
    /// A backup of the kind ranks above one of its primaries.
    Outranked { kind: String },
}

fn kind_count_of(rs: &Vec<Drawn>, k: &[char]) -> (n: usize)
    ensures
        n == kind_count(rs@, k@),
{
    let mut n: usize = 0;
    let mut i: usize = 0;
    while i < rs.len()
        invariant
            i <= rs@.len(),
            n == kind_count(rs@.take(i as int), k@),
            n <= i,
        decreases rs.len() - i,
    {
        assert(rs@.take(i + 1).drop_last() =~= rs@.take(i as int));
        assert(rs@.take(i + 1).last() == rs@[i as int]);
        if same(&chars_of(rs[i].kind.as_str()), k) {
            n += 1;
        }
        i += 1;
    }
    assert(rs@.take(rs@.len() as int) =~= rs@);
    n
}

fn lt(a: &String, b: &String) -> (r: bool)
    ensures
        r == lex_lt(a@, b@),
{
    str_le(a.as_str(), b.as_str()) && !same(&chars_of(a.as_str()), &chars_of(b.as_str()))
}

fn in_pool(pool: &Vec<(String, u64)>, k: &[char]) -> (b: bool)
    ensures
        b == pool_kinds(pool@).contains(k@),
{
    let mut i: usize = 0;
    while i < pool.len()
        invariant
            i <= pool@.len(),
            forall|j: int| 0 <= j < i ==> pool_kinds(pool@)[j] != k@,
        decreases pool.len() - i,
    {
        assert(pool_kinds(pool@)[i as int] == pool@[i as int].0@);
        if same(&chars_of(pool[i].0.as_str()), k) {
            return true;
        }
        i += 1;
    }
    false
}

fn below(rows: &Vec<Drawn>, bs: &Vec<Drawn>, k: &[char]) -> (r: bool)
    ensures
        r == ranked_below(rows@, bs@, k@),
{
    let mut p: usize = 0;
    while p < rows.len()
        invariant
            p <= rows@.len(),
            forall|q: int, b: int|
                0 <= q < p && 0 <= b < bs@.len() && (#[trigger] rows@[q]).kind@ == k@ && (#[trigger] bs@[b]).kind@
                    == k@ ==> lex_lt(rows@[q].rank@, bs@[b].rank@),
        decreases rows.len() - p,
    {
        if same(&chars_of(rows[p].kind.as_str()), k) {
            let mut b: usize = 0;
            while b < bs.len()
                invariant
                    p < rows@.len(),
                    rows@[p as int].kind@ == k@,
                    b <= bs@.len(),
                    forall|q: int, c: int|
                        0 <= q < p && 0 <= c < bs@.len() && (#[trigger] rows@[q]).kind@ == k@ && (#[trigger] bs@[c]).kind@
                            == k@ ==> lex_lt(rows@[q].rank@, bs@[c].rank@),
                    forall|c: int|
                        0 <= c < b && (#[trigger] bs@[c]).kind@ == k@ ==> lex_lt(rows@[p as int].rank@, bs@[c].rank@),
                decreases bs.len() - b,
            {
                if same(&chars_of(bs[b].kind.as_str()), k) && !lt(&rows[p].rank, &bs[b].rank) {
                    assert(!lex_lt(rows@[p as int].rank@, bs@[b as int].rank@));
                    return false;
                }
                b += 1;
            }
        }
        p += 1;
    }
    true
}

/// The primaries and backups of a frozen sample against the pool's
/// per-kind counts (pool kinds each once): the per-kind counts equal the
/// allocation re-run from the pool, the primaries stand in audit order,
/// the backups in (kind, audit) order, and each pool kind, in pool
/// order, has the backups it is owed, each ranked below every primary
/// of its kind.
#[verifier::loop_isolation(false)]
pub fn check_draw(rows: &Vec<Drawn>, backups: &Vec<Drawn>, pool: &Vec<(String, u64)>) -> (r: Result<
    (),
    DrawFault,
>)
    requires
        quota_fits(counts(pool@)),
        canonical(pool_kinds(pool@)),
    ensures
        r is Ok <==> per_kind_ok(rows@, pool@) && audit_sorted(rows@) && backup_sorted(backups@)
            && backups_ok(rows@, backups@, pool@),
        r matches Err(DrawFault::PerKind) ==> !per_kind_ok(rows@, pool@),
        r matches Err(DrawFault::Unsorted) ==> per_kind_ok(rows@, pool@) && !audit_sorted(rows@),
        r matches Err(DrawFault::BackupsUnsorted) ==> per_kind_ok(rows@, pool@) && audit_sorted(rows@)
            && !backup_sorted(backups@),
        r matches Err(DrawFault::Backups { kind, have, want }) ==> exists|i: int|
            0 <= i < pool@.len() && (#[trigger] pool_kinds(pool@)[i]) == kind@ && have == kind_count(
                backups@,
                kind@,
            ) && want == backups_owed(pool@, i) && have != want,
        r matches Err(DrawFault::Outranked { kind }) ==> exists|i: int|
            0 <= i < pool@.len() && (#[trigger] pool_kinds(pool@)[i]) == kind@ && !ranked_below(
                rows@,
                backups@,
                kind@,
            ),
{
    let alloc = super::quotas(pool);
    let n = pool.len();
    let mut i: usize = 0;
    while i < n
        invariant
            n == pool@.len(),
            alloc@.len() == n,
            forall|q: int|
                0 <= q < n ==> (#[trigger] alloc@[q]).0 == pool@[q].0 && alloc@[q].1 as int == quota(
                    counts(pool@),
                    q,
                ),
            i <= n,
            forall|q: int|
                0 <= q < i ==> kind_count(rows@, #[trigger] pool_kinds(pool@)[q]) == quota(counts(pool@), q)
                    && quota(counts(pool@), q) > 0,
        decreases n - i,
    {
        let k = chars_of(pool[i].0.as_str());
        assert(pool_kinds(pool@)[i as int] == k@);
        let have = kind_count_of(rows, &k);
        if have as u64 != alloc[i].1 || alloc[i].1 == 0 {
            return Err(DrawFault::PerKind);
        }
        assert(kind_count(rows@, pool_kinds(pool@)[i as int]) == quota(counts(pool@), i as int));
        assert(quota(counts(pool@), i as int) > 0);
        assert forall|q: int|
            0 <= q < i + 1 implies kind_count(rows@, #[trigger] pool_kinds(pool@)[q]) == quota(counts(pool@), q)
                && quota(counts(pool@), q) > 0 by {
            if q == i {
                assert(alloc@[q].1 as int == quota(counts(pool@), q));
            }
        }
        i += 1;
    }
    let mut j: usize = 0;
    while j < rows.len()
        invariant
            j <= rows@.len(),
            forall|q: int| 0 <= q < j ==> pool_kinds(pool@).contains(#[trigger] rows@[q].kind@),
        decreases rows.len() - j,
    {
        if !in_pool(pool, &chars_of(rows[j].kind.as_str())) {
            return Err(DrawFault::PerKind);
        }
        j += 1;
    }
    let mut a: usize = 1;
    while a < rows.len()
        invariant
            1 <= a,
            a <= rows@.len() || rows@.len() == 0,
            forall|q: int| 0 < q < a && q < rows@.len() ==> #[trigger] audit_step(rows@, q),
        decreases rows.len() - a,
    {
        if !str_le(rows[a - 1].audit.as_str(), rows[a].audit.as_str()) {
            assert(!audit_step(rows@, a as int));
            return Err(DrawFault::Unsorted);
        }
        a += 1;
    }
    let mut b: usize = 1;
    while b < backups.len()
        invariant
            1 <= b,
            b <= backups@.len() || backups@.len() == 0,
            forall|q: int| 0 < q < b && q < backups@.len() ==> #[trigger] backup_step(backups@, q),
        decreases backups.len() - b,
    {
        let x = &backups[b - 1];
        let y = &backups[b];
        let ok = lt(&x.kind, &y.kind) || (same(&chars_of(x.kind.as_str()), &chars_of(y.kind.as_str()))
            && str_le(x.audit.as_str(), y.audit.as_str()));
        if !ok {
            assert(!backup_step(backups@, b as int));
            return Err(DrawFault::BackupsUnsorted);
        }
        b += 1;
    }
    let mut i: usize = 0;
    while i < n
        invariant
            n == pool@.len(),
            alloc@.len() == n,
            forall|q: int|
                0 <= q < n ==> (#[trigger] alloc@[q]).0 == pool@[q].0 && alloc@[q].1 as int == quota(
                    counts(pool@),
                    q,
                ),
            i <= n,
            forall|q: int|
                0 <= q < i ==> kind_count(backups@, #[trigger] pool_kinds(pool@)[q]) == backups_owed(pool@, q)
                    && ranked_below(rows@, backups@, pool_kinds(pool@)[q]),
        decreases n - i,
    {
        let k = chars_of(pool[i].0.as_str());
        assert(pool_kinds(pool@)[i as int] == k@);
        proof {
            super::draw::lemma_quota_le_pool(counts(pool@), i as int);
        }
        let left = pool[i].1 - alloc[i].1;
        let want: u64 = if left < BACKUP_PER_KIND {
            left
        } else {
            BACKUP_PER_KIND
        };
        let have = kind_count_of(backups, &k);
        if have as u64 != want {
            return Err(DrawFault::Backups { kind: crate::text::string_of(&k), have, want });
        }
        if !below(rows, backups, &k) {
            return Err(DrawFault::Outranked { kind: crate::text::string_of(&k) });
        }
        i += 1;
    }
    Ok(())
}

/// One frozen sample row's identity as the row check reads it.
pub struct SampleRow {
    pub rank: String,
    pub audit: String,
    pub lang: String,
    pub corpus: String,
    pub commit: String,
    pub path: String,
    pub kind: String,
}

/// The two domain hashes re-derived from a row's own fields.
pub struct Hashes {
    pub rank: String,
    pub audit: String,
}

/// A frozen file of a slice: its corpus, its path and its sites per
/// kind.
pub struct FileSites {
    pub corpus: String,
    pub path: String,
    pub sites: Vec<(String, u64)>,
}

/// The first frozen file of `corpus` at `path`.
pub open spec fn file_from(files: Seq<FileSites>, corpus: Chars, path: Chars, i: int) -> Option<int>
    decreases files.len() - i,
{
    if i < 0 || i >= files.len() {
        None
    } else if files[i].corpus@ == corpus && files[i].path@ == path {
        Some(i)
    } else {
        file_from(files, corpus, path, i + 1)
    }
}

/// A frozen file's sites of one kind.
pub open spec fn sites_from(sites: Seq<(String, u64)>, kind: Chars, i: int) -> Option<u64>
    decreases sites.len() - i,
{
    if i < 0 || i >= sites.len() {
        None
    } else if sites[i].0@ == kind {
        Some(sites[i].1)
    } else {
        sites_from(sites, kind, i + 1)
    }
}

/// Two rows sampled from one (corpus, file, kind).
pub open spec fn same_site_key(a: SampleRow, b: SampleRow) -> bool {
    a.corpus@ == b.corpus@ && a.path@ == b.path@ && a.kind@ == b.kind@
}

/// How many rows up to row `i` share row `i`'s (corpus, file, kind).
pub open spec fn key_count(rows: Seq<SampleRow>, r: SampleRow, n: int) -> nat
    decreases n,
{
    if n <= 0 {
        0
    } else {
        key_count(rows, r, n - 1) + if same_site_key(rows[n - 1], r) {
            1nat
        } else {
            0nat
        }
    }
}

/// Row `i` of a sample (primaries then backups) against its exam and
/// the frozen files: both hashes re-derive, its rank is new, its
/// language is the exam's, its commit is its corpus's pinned tip, and
/// it is bound to a frozen file holding at least as many sites of its
/// kind as rows sampled so far.
pub open spec fn sample_row_ok(exam: Exam, files: Seq<FileSites>, rows: Seq<SampleRow>, hashes: Seq<Hashes>, i: int) -> bool {
    let r = rows[i];
    &&& r.rank@ == hashes[i].rank@
    &&& r.audit@ == hashes[i].audit@
    &&& forall|j: int| 0 <= j < i ==> (#[trigger] rows[j]).rank@ != r.rank@
    &&& r.lang@ == exam.lang@
    &&& value_for(pairs_view(exam.corpora@), r.corpus@) == Some(r.commit@)
    &&& file_from(files, r.corpus@, r.path@, 0) matches Some(f) && (sites_from(files[f].sites@, r.kind@, 0) matches Some(
        n,
    ) && key_count(rows, r, i + 1) <= n)
}

/// Why a frozen sample row is refused.
#[derive(Debug)]
pub enum RowFault {
    /// The rank hash does not re-derive.
    Forged { rank: String },
    /// The audit hash does not re-derive.
    AuditForged { rank: String },
    /// A rank sampled twice.
    Twice { rank: String },
    /// Another language.
    Lang { rank: String },
    /// A corpus the exam does not hold, or not its pinned commit.
    NotPinned { rank: String },
    /// No frozen file at the row's path.
    NoFile { rank: String },
    /// More sites of the kind sampled than the frozen file holds.
    Bound { rank: String },
}

proof fn lemma_file_from_range(files: Seq<FileSites>, corpus: Chars, path: Chars, i: int)
    requires
        0 <= i,
    ensures
        file_from(files, corpus, path, i) matches Some(k) ==> i <= k < files.len() && files[k].corpus@
            == corpus && files[k].path@ == path,
    decreases files.len() - i,
{
    if i < files.len() {
        lemma_file_from_range(files, corpus, path, i + 1);
    }
}

fn file_at(files: &Vec<FileSites>, corpus: &[char], path: &[char]) -> (r: Option<usize>)
    ensures
        r == (match file_from(files@, corpus@, path@, 0) {
            Some(i) => Some(i as usize),
            None => None,
        }),
{
    let mut i: usize = 0;
    while i < files.len()
        invariant
            i <= files@.len(),
            file_from(files@, corpus@, path@, 0) == file_from(files@, corpus@, path@, i as int),
        decreases files.len() - i,
    {
        if same(&chars_of(files[i].corpus.as_str()), corpus) && same(&chars_of(files[i].path.as_str()), path) {
            return Some(i);
        }
        i += 1;
    }
    None
}

fn sites_at(sites: &Vec<(String, u64)>, kind: &[char]) -> (r: Option<u64>)
    ensures
        r == sites_from(sites@, kind@, 0),
{
    let mut i: usize = 0;
    while i < sites.len()
        invariant
            i <= sites@.len(),
            sites_from(sites@, kind@, 0) == sites_from(sites@, kind@, i as int),
        decreases sites.len() - i,
    {
        if same(&chars_of(sites[i].0.as_str()), kind) {
            return Some(sites[i].1);
        }
        i += 1;
    }
    None
}

fn eq(a: &String, b: &String) -> (r: bool)
    ensures
        r == (a@ == b@),
{
    same(&chars_of(a.as_str()), &chars_of(b.as_str()))
}

fn count_key(rows: &Vec<SampleRow>, i: usize) -> (n: usize)
    requires
        i < rows@.len(),
    ensures
        n == key_count(rows@, rows@[i as int], i + 1),
{
    let len = rows.len();
    let mut n: usize = 0;
    let mut j: usize = 0;
    while j <= i
        invariant
            len == rows@.len(),
            i < rows@.len(),
            j <= i + 1,
            n == key_count(rows@, rows@[i as int], j as int),
            n <= j,
        decreases i + 1 - j,
    {
        if eq(&rows[j].corpus, &rows[i].corpus) && eq(&rows[j].path, &rows[i].path) && eq(&rows[j].kind, &rows[i].kind) {
            n += 1;
        }
        j += 1;
    }
    n
}

fn copy_rank(r: &SampleRow) -> (s: String)
    ensures
        s@ == r.rank@,
{
    string_of(&chars_of(r.rank.as_str()))
}

/// The rows of a frozen sample (primaries, then backups), each against
/// its exam and the frozen files of the slices; `hashes[i]` are the two
/// domain hashes re-derived from row `i`'s own fields.
pub fn check_rows(exam: &Exam, files: &Vec<FileSites>, rows: &Vec<SampleRow>, hashes: &Vec<Hashes>) -> (r: Result<
    (),
    RowFault,
>)
    requires
        hashes@.len() == rows@.len(),
    ensures
        r is Ok <==> forall|i: int| 0 <= i < rows@.len() ==> #[trigger] sample_row_ok(*exam, files@, rows@, hashes@, i),
        r is Err ==> exists|i: int| 0 <= i < rows@.len() && !#[trigger] sample_row_ok(*exam, files@, rows@, hashes@, i),
{
    let mut i: usize = 0;
    while i < rows.len()
        invariant
            hashes@.len() == rows@.len(),
            i <= rows@.len(),
            forall|q: int| 0 <= q < i ==> #[trigger] sample_row_ok(*exam, files@, rows@, hashes@, q),
        decreases rows.len() - i,
    {
        let row = &rows[i];
        if !eq(&row.rank, &hashes[i].rank) {
            assert(!sample_row_ok(*exam, files@, rows@, hashes@, i as int));
            return Err(RowFault::Forged { rank: copy_rank(row) });
        }
        if !eq(&row.audit, &hashes[i].audit) {
            assert(!sample_row_ok(*exam, files@, rows@, hashes@, i as int));
            return Err(RowFault::AuditForged { rank: copy_rank(row) });
        }
        let mut j: usize = 0;
        while j < i
            invariant
                i < rows@.len(),
                j <= i,
                forall|q: int| 0 <= q < j ==> (#[trigger] rows@[q]).rank@ != rows@[i as int].rank@,
            decreases i - j,
        {
            if eq(&rows[j].rank, &rows[i].rank) {
                assert(!sample_row_ok(*exam, files@, rows@, hashes@, i as int));
                return Err(RowFault::Twice { rank: copy_rank(&rows[i]) });
            }
            j += 1;
        }
        if !eq(&row.lang, &exam.lang) {
            assert(!sample_row_ok(*exam, files@, rows@, hashes@, i as int));
            return Err(RowFault::Lang { rank: copy_rank(row) });
        }
        let pinned = match value_in(exam.corpora.as_slice(), &chars_of(row.corpus.as_str())) {
            Some(t) => same(&t, &chars_of(row.commit.as_str())),
            None => false,
        };
        if !pinned {
            assert(!sample_row_ok(*exam, files@, rows@, hashes@, i as int));
            return Err(RowFault::NotPinned { rank: copy_rank(row) });
        }
        let _nf = files.len();
        proof {
            lemma_file_from_range(files@, row.corpus@, row.path@, 0);
        }
        let f = match file_at(files, &chars_of(row.corpus.as_str()), &chars_of(row.path.as_str())) {
            Some(f) => f,
            None => {
                assert(!sample_row_ok(*exam, files@, rows@, hashes@, i as int));
                return Err(RowFault::NoFile { rank: copy_rank(row) });
            },
        };
        assert(file_from(files@, rows@[i as int].corpus@, rows@[i as int].path@, 0) == Some(f as int));
        let n = count_key(rows, i);
        let got = sites_at(&files[f].sites, &chars_of(row.kind.as_str()));
        assert(got == sites_from(files@[f as int].sites@, rows@[i as int].kind@, 0));
        let within = match got {
            Some(have) => n as u64 <= have,
            None => false,
        };
        if !within {
            assert(!sample_row_ok(*exam, files@, rows@, hashes@, i as int));
            return Err(RowFault::Bound { rank: copy_rank(row) });
        }
        assert(sample_row_ok(*exam, files@, rows@, hashes@, i as int));
        i += 1;
    }
    Ok(())
}


/// The slices' summary cells as (kind, count), the exam's `lang/` taken
/// off each cell, slice after slice.
pub open spec fn pool_entries(lang: Chars, slices: Seq<Seq<(Chars, u64)>>) -> Seq<(Chars, u64)>
    decreases slices.len(),
{
    if slices.len() == 0 {
        Seq::empty()
    } else {
        pool_entries(lang, slices.drop_last()) + slices.last().map_values(
            |e: (Chars, u64)| (e.0.skip(lang.len() + 1int), e.1),
        )
    }
}

/// Every summary cell of every slice opens with the exam's `lang/`.
pub open spec fn cells_prefixed(lang: Chars, slices: Seq<Seq<(Chars, u64)>>) -> bool {
    forall|s: int, i: int|
        0 <= s < slices.len() && 0 <= i < slices[s].len() ==> starts(
            #[trigger] slices[s][i].0,
            lang + seq!['/'],
        )
}

pub open spec fn slices_view(slices: Seq<Vec<(String, u64)>>) -> Seq<Seq<(Chars, u64)>> {
    slices.map_values(|v: Vec<(String, u64)>| entries_view(v@))
}

/// The per-kind pool re-derived from the slices' `sites_by` summaries:
/// each cell's `lang/` taken off and the counts summed per kind, the
/// kinds sorted, each once; `None` where a cell is not of the exam's
/// language.
pub fn pool_counts(lang: &str, slices: &Vec<Vec<(String, u64)>>) -> (r: Option<Vec<(String, u64)>>)
    requires
        sums_fit(pool_entries(lang@, slices_view(slices@))),
    ensures
        r is Some <==> cells_prefixed(lang@, slices_view(slices@)),
        r matches Some(pool) ==> {
            &&& canonical(keys_of(entries_view(pool@)))
            &&& keys_of(entries_view(pool@)).to_set() == keys_of(
                pool_entries(lang@, slices_view(slices@)),
            ).to_set()
            &&& forall|i: int|
                0 <= i < pool@.len() ==> (#[trigger] pool@[i]).1 as int == sum_for(
                    pool_entries(lang@, slices_view(slices@)),
                    pool@[i].0@,
                )
        },
{
    let ghost sv = slices_view(slices@);
    let head = concat(&chars_of(lang), &chars_of("/"));
    proof {
        reveal_strlit("/");
        assert(head@ =~= lang@ + seq!['/']);
    }
    let mut es: Vec<(String, u64)> = Vec::new();
    let mut s: usize = 0;
    while s < slices.len()
        invariant
            sv == slices_view(slices@),
            head@ == lang@ + seq!['/'],
            s <= slices@.len(),
            entries_view(es@) == pool_entries(lang@, sv.take(s as int)),
            cells_prefixed(lang@, sv.take(s as int)),
        decreases slices.len() - s,
    {
        let cells = &slices[s];
        let ghost base = entries_view(es@);
        let ghost add = sv[s as int].map_values(|e: (Chars, u64)| (e.0.skip(lang@.len() + 1int), e.1));
        proof {
            assert(sv.take(s + 1).drop_last() =~= sv.take(s as int));
            assert(sv.take(s + 1).last() == sv[s as int]);
            assert(sv[s as int] == entries_view(cells@));
        }
        let mut i: usize = 0;
        while i < cells.len()
            invariant
                sv == slices_view(slices@),
                head@ == lang@ + seq!['/'],
                s < slices@.len(),
                cells == &slices@[s as int],
                sv[s as int] == entries_view(cells@),
                add == sv[s as int].map_values(|e: (Chars, u64)| (e.0.skip(lang@.len() + 1int), e.1)),
                i <= cells@.len(),
                entries_view(es@) == base + add.take(i as int),
                cells_prefixed(lang@, sv.take(s as int)),
                forall|j: int| 0 <= j < i ==> starts(#[trigger] sv[s as int][j].0, lang@ + seq!['/']),
            decreases cells.len() - i,
        {
            let cell = chars_of(cells[i].0.as_str());
            assert(sv[s as int][i as int].0 == cell@);
            if !starts_with(&cell, &head) {
                proof {
                    assert(sv.take(s + 1)[s as int][i as int] == sv[s as int][i as int]);
                    assert(!cells_prefixed(lang@, sv.take(s + 1)));
                    lemma_prefixed_prefix(lang@, sv, s + 1);
                }
                return None;
            }
            let kind = slice_vec(&cell, head.len(), cell.len());
            let n = cells[i].1;
            let ghost before = entries_view(es@);
            proof {
                assert(kind@ =~= cell@.skip(lang@.len() + 1int));
                assert(add[i as int] == (kind@, n));
                assert(add.take(i + 1) =~= add.take(i as int).push((kind@, n)));
            }
            es.push((string_of(&kind), n));
            assert(entries_view(es@) =~= before.push((kind@, n)));
            i += 1;
        }
        proof {
            assert(add.take(cells@.len() as int) =~= add);
            assert(pool_entries(lang@, sv.take(s + 1)) == pool_entries(lang@, sv.take(s as int)) + add);
            assert forall|t: int, j: int|
                0 <= t < sv.take(s + 1).len() && 0 <= j < sv.take(s + 1)[t].len() implies starts(
                #[trigger] sv.take(s + 1)[t][j].0,
                lang@ + seq!['/'],
            ) by {
                if t < s {
                    assert(sv.take(s + 1)[t] == sv.take(s as int)[t]);
                }
            }
        }
        s += 1;
    }
    assert(sv.take(slices@.len() as int) =~= sv);
    Some(tally(&es))
}

/// A cell that breaks the prefix among the first `n` slices breaks it
/// among all of them.
proof fn lemma_prefixed_prefix(lang: Chars, sv: Seq<Seq<(Chars, u64)>>, n: int)
    requires
        0 <= n <= sv.len(),
        !cells_prefixed(lang, sv.take(n)),
    ensures
        !cells_prefixed(lang, sv),
{
    let (t, j) = choose|t: int, j: int|
        0 <= t < sv.take(n).len() && 0 <= j < sv.take(n)[t].len() && !starts(
            #[trigger] sv.take(n)[t][j].0,
            lang + seq!['/'],
        );
    assert(sv.take(n)[t] == sv[t]);
    assert(!starts(sv[t][j].0, lang + seq!['/']));
}

/// The frozen sample's schema.
pub const SAMPLE_SCHEMA: &'static str = "ce.eval-lang-sample/1.0.0";
/// The domains the two hashes of a sample row are taken in.
pub const SITE_DOMAIN: &'static str = "ce-lang-site-v1";
pub const AUDIT_DOMAIN: &'static str = "ce-lang-audit-v1";

/// The pre-registered sample constants as a sample doc carries them.
pub struct SampleConstants {
    pub total: u64,
    pub min_per_kind: u64,
    pub backup_per_kind: u64,
    pub site_domain: String,
    pub audit_domain: String,
}

pub open spec fn constants_ok(c: SampleConstants) -> bool {
    &&& c.total == TOTAL
    &&& c.min_per_kind == MIN_PER_KIND
    &&& c.backup_per_kind == BACKUP_PER_KIND
    &&& c.site_domain@ == SITE_DOMAIN@
    &&& c.audit_domain@ == AUDIT_DOMAIN@
}

/// The pre-registered sample constants.
pub fn sample_constants() -> (c: SampleConstants)
    ensures
        constants_ok(c),
{
    SampleConstants {
        total: TOTAL,
        min_per_kind: MIN_PER_KIND,
        backup_per_kind: BACKUP_PER_KIND,
        site_domain: string_of(&chars_of(SITE_DOMAIN)),
        audit_domain: string_of(&chars_of(AUDIT_DOMAIN)),
    }
}

/// One sample `sources` row: which frozen universe a pool came from —
/// the corpus, the slice's tip and its total sites.
pub struct Source {
    pub corpus: String,
    pub tip: String,
    pub total_sites: u64,
}

/// What a frozen slice tells a sample's sources: its tip and its total
/// sites.
pub struct SliceHead {
    pub tip: String,
    pub total_sites: u64,
}

/// A sample doc's envelope: schema, language, constants, sources and
/// the allocation field.
pub struct SampleEnvelope {
    pub schema: String,
    pub lang: String,
    pub constants: SampleConstants,
    pub sources: Vec<Source>,
    pub allocation: Vec<(String, u64)>,
}

/// The sources are the exam's corpora in order, each with its slice's
/// tip and total sites.
pub open spec fn sources_ok(sources: Seq<Source>, exam: Exam, slices: Seq<SliceHead>) -> bool {
    &&& sources.len() == exam.corpora@.len()
    &&& forall|i: int|
        0 <= i < sources.len() ==> (#[trigger] sources[i]).corpus@ == exam.corpora@[i].0@ && sources[i].tip@
            == slices[i].tip@ && sources[i].total_sites == slices[i].total_sites
}

/// The allocation is the quotas re-run from the pool, kind by kind.
pub open spec fn allocation_ok(alloc: Seq<(String, u64)>, pool: Seq<(String, u64)>) -> bool {
    &&& alloc.len() == pool.len()
    &&& forall|i: int|
        0 <= i < alloc.len() ==> (#[trigger] alloc[i]).0@ == pool[i].0@ && alloc[i].1 as int == quota(
            counts(pool),
            i,
        )
}

/// Why a sample doc's envelope is refused.
#[derive(Debug)]
pub enum SampleEnvelopeFault {
    Schema,
    Lang,
    Constants,
    Sources,
    Allocation,
}

fn same_str(a: &String, b: &str) -> (r: bool)
    ensures
        r == (a@ == b@),
{
    same(&chars_of(a.as_str()), &chars_of(b))
}

fn sources_match(sources: &Vec<Source>, exam: &Exam, slices: &Vec<SliceHead>) -> (r: bool)
    requires
        slices@.len() == exam.corpora@.len(),
    ensures
        r == sources_ok(sources@, *exam, slices@),
{
    if sources.len() != exam.corpora.len() {
        return false;
    }
    let mut i: usize = 0;
    while i < sources.len()
        invariant
            sources@.len() == exam.corpora@.len(),
            slices@.len() == exam.corpora@.len(),
            i <= sources@.len(),
            forall|j: int|
                0 <= j < i ==> (#[trigger] sources@[j]).corpus@ == exam.corpora@[j].0@ && sources@[j].tip@
                    == slices@[j].tip@ && sources@[j].total_sites == slices@[j].total_sites,
        decreases sources.len() - i,
    {
        let s = &sources[i];
        if !same_str(&s.corpus, exam.corpora[i].0.as_str()) || !same_str(&s.tip, slices[i].tip.as_str())
            || s.total_sites != slices[i].total_sites {
            return false;
        }
        i += 1;
    }
    true
}

/// A frozen sample's envelope against its exam, its slices and its
/// pool: the schema the sample schema, the language the exam's, the
/// constants the pre-registered ones, the sources the exam's corpora
/// with their slices' tips and totals, and the allocation the quotas
/// re-run from the pool.
#[verifier::loop_isolation(false)]
pub fn check_sample_envelope(
    exam: &Exam,
    doc: &SampleEnvelope,
    slices: &Vec<SliceHead>,
    pool: &Vec<(String, u64)>,
) -> (r: Result<(), SampleEnvelopeFault>)
    requires
        slices@.len() == exam.corpora@.len(),
        canonical(weight_keys(pool@)),
        quota_fits(counts(pool@)),
    ensures
        r is Ok <==> doc.schema@ == SAMPLE_SCHEMA@ && doc.lang@ == exam.lang@ && constants_ok(doc.constants)
            && sources_ok(doc.sources@, *exam, slices@) && allocation_ok(doc.allocation@, pool@),
        r matches Err(SampleEnvelopeFault::Schema) <==> doc.schema@ != SAMPLE_SCHEMA@,
        r matches Err(SampleEnvelopeFault::Lang) <==> doc.schema@ == SAMPLE_SCHEMA@ && doc.lang@ != exam.lang@,
        r matches Err(SampleEnvelopeFault::Constants) <==> doc.schema@ == SAMPLE_SCHEMA@ && doc.lang@
            == exam.lang@ && !constants_ok(doc.constants),
        r matches Err(SampleEnvelopeFault::Sources) <==> doc.schema@ == SAMPLE_SCHEMA@ && doc.lang@ == exam.lang@
            && constants_ok(doc.constants) && !sources_ok(doc.sources@, *exam, slices@),
        r matches Err(SampleEnvelopeFault::Allocation) <==> doc.schema@ == SAMPLE_SCHEMA@ && doc.lang@
            == exam.lang@ && constants_ok(doc.constants) && sources_ok(doc.sources@, *exam, slices@)
            && !allocation_ok(doc.allocation@, pool@),
{
    if !same_str(&doc.schema, SAMPLE_SCHEMA) {
        return Err(SampleEnvelopeFault::Schema);
    }
    if !same_str(&doc.lang, exam.lang.as_str()) {
        return Err(SampleEnvelopeFault::Lang);
    }
    let c = &doc.constants;
    if !(c.total == TOTAL && c.min_per_kind == MIN_PER_KIND && c.backup_per_kind == BACKUP_PER_KIND && same_str(
        &c.site_domain,
        SITE_DOMAIN,
    ) && same_str(&c.audit_domain, AUDIT_DOMAIN)) {
        return Err(SampleEnvelopeFault::Constants);
    }
    if !sources_match(&doc.sources, exam, slices) {
        return Err(SampleEnvelopeFault::Sources);
    }
    let want = super::quotas(pool);
    let a = &doc.allocation;
    if a.len() != want.len() {
        return Err(SampleEnvelopeFault::Allocation);
    }
    let mut i: usize = 0;
    while i < a.len()
        invariant
            a@.len() == want@.len(),
            want@.len() == pool@.len(),
            i <= a@.len(),
            forall|j: int|
                0 <= j < i ==> (#[trigger] a@[j]).0@ == pool@[j].0@ && a@[j].1 as int == quota(counts(pool@), j),
        decreases a.len() - i,
    {
        assert(want@[i as int].0 == pool@[i as int].0);
        if !same_str(&a[i].0, want[i].0.as_str()) || a[i].1 != want[i].1 {
            assert(!allocation_ok(a@, pool@)) by {
                assert(want@[i as int].1 as int == quota(counts(pool@), i as int));
            }
            return Err(SampleEnvelopeFault::Allocation);
        }
        i += 1;
    }
    Ok(())
}

/// A frozen sample doc: its envelope, its primaries and its backups.
pub struct SampleDoc {
    pub envelope: SampleEnvelope,
    pub rows: Vec<SampleRow>,
    pub backups: Vec<SampleRow>,
}

/// What the draw check reads of a sample row.
pub open spec fn drawn_of(r: SampleRow) -> Drawn {
    Drawn { kind: r.kind, rank: r.rank, audit: r.audit }
}

pub open spec fn drawn_all(rs: Seq<SampleRow>) -> Seq<Drawn> {
    rs.map_values(|r: SampleRow| drawn_of(r))
}

/// The envelope holds: schema, language, constants, sources, allocation.
pub open spec fn envelope_ok(exam: Exam, doc: SampleEnvelope, slices: Seq<SliceHead>, pool: Seq<(String, u64)>) -> bool {
    &&& doc.schema@ == SAMPLE_SCHEMA@
    &&& doc.lang@ == exam.lang@
    &&& constants_ok(doc.constants)
    &&& sources_ok(doc.sources@, exam, slices)
    &&& allocation_ok(doc.allocation@, pool)
}

/// Every row, primaries then backups, passes the row check.
pub open spec fn rows_ok(exam: Exam, files: Seq<FileSites>, rows: Seq<SampleRow>, hashes: Seq<Hashes>) -> bool {
    forall|i: int| 0 <= i < rows.len() ==> #[trigger] sample_row_ok(exam, files, rows, hashes, i)
}

/// The draw holds: per-kind counts, both orders, the backups owed and
/// ranked below.
pub open spec fn draw_ok(rows: Seq<Drawn>, backups: Seq<Drawn>, pool: Seq<(String, u64)>) -> bool {
    &&& per_kind_ok(rows, pool)
    &&& audit_sorted(rows)
    &&& backup_sorted(backups)
    &&& backups_ok(rows, backups, pool)
}

/// Why a frozen sample is refused: the first check it fails, with that
/// check's own fault.
#[derive(Debug)]
pub enum SampleFault {
    /// A summary cell of the slices is not of the exam's language.
    Pool,
    /// The slices' pool, a hundredfold, does not fit in a `u64`.
    PoolTooLarge,
    Envelope(SampleEnvelopeFault),
    Row(RowFault),
    Draw(DrawFault),
}

fn copy_string(s: &String) -> (c: String)
    ensures
        c == *s,
{
    s.clone()
}

fn copy_row(r: &SampleRow) -> (c: SampleRow)
    ensures
        c == *r,
{
    SampleRow {
        rank: copy_string(&r.rank),
        audit: copy_string(&r.audit),
        lang: copy_string(&r.lang),
        corpus: copy_string(&r.corpus),
        commit: copy_string(&r.commit),
        path: copy_string(&r.path),
        kind: copy_string(&r.kind),
    }
}

fn drawn_rows(rs: &Vec<SampleRow>) -> (out: Vec<Drawn>)
    ensures
        out@ == drawn_all(rs@),
{
    let mut out: Vec<Drawn> = Vec::new();
    let mut i: usize = 0;
    while i < rs.len()
        invariant
            i <= rs@.len(),
            out@ == drawn_all(rs@.take(i as int)),
        decreases rs.len() - i,
    {
        let r = &rs[i];
        out.push(Drawn { kind: copy_string(&r.kind), rank: copy_string(&r.rank), audit: copy_string(&r.audit) });
        assert(drawn_all(rs@.take(i + 1)) =~= drawn_all(rs@.take(i as int)).push(drawn_of(rs@[i as int])));
        i += 1;
    }
    assert(rs@.take(rs@.len() as int) =~= rs@);
    out
}

fn all_rows(doc: &SampleDoc) -> (out: Vec<SampleRow>)
    ensures
        out@ == doc.rows@ + doc.backups@,
{
    let mut out: Vec<SampleRow> = Vec::new();
    let mut i: usize = 0;
    while i < doc.rows.len()
        invariant
            i <= doc.rows@.len(),
            out@ == doc.rows@.take(i as int),
        decreases doc.rows.len() - i,
    {
        out.push(copy_row(&doc.rows[i]));
        assert(doc.rows@.take(i + 1) =~= doc.rows@.take(i as int).push(doc.rows@[i as int]));
        i += 1;
    }
    assert(doc.rows@.take(doc.rows@.len() as int) =~= doc.rows@);
    let mut j: usize = 0;
    while j < doc.backups.len()
        invariant
            j <= doc.backups@.len(),
            out@ == doc.rows@ + doc.backups@.take(j as int),
        decreases doc.backups.len() - j,
    {
        out.push(copy_row(&doc.backups[j]));
        assert(doc.backups@.take(j + 1) =~= doc.backups@.take(j as int).push(doc.backups@[j as int]));
        j += 1;
    }
    assert(doc.backups@.take(doc.backups@.len() as int) =~= doc.backups@);
    out
}

/// One frozen sample against its exam, its frozen slices and its pool
/// (the per-kind counts that `pool_counts` gives for the slices): the
/// envelope, then every row, primaries then backups (`hashes[i]` the two
/// domain hashes re-derived from row `i`'s own fields), then the draw.
/// The sample passes exactly when all three hold; a sample that fails
/// one is refused with the fault of the first check it fails. The
/// refusal is a value for the caller to report, never a panic.
pub fn verify_sample(
    exam: &Exam,
    doc: &SampleDoc,
    slices: &Vec<SliceHead>,
    pool: &Vec<(String, u64)>,
    files: &Vec<FileSites>,
    hashes: &Vec<Hashes>,
) -> (r: Result<(), SampleFault>)
    requires
        slices@.len() == exam.corpora@.len(),
        canonical(weight_keys(pool@)),
        quota_fits(counts(pool@)),
        hashes@.len() == doc.rows@.len() + doc.backups@.len(),
    ensures
        r is Ok <==> envelope_ok(*exam, doc.envelope, slices@, pool@) && rows_ok(
            *exam,
            files@,
            doc.rows@ + doc.backups@,
            hashes@,
        ) && draw_ok(drawn_all(doc.rows@), drawn_all(doc.backups@), pool@),
        !(r matches Err(SampleFault::Pool)) && !(r matches Err(SampleFault::PoolTooLarge)),
        r matches Err(SampleFault::Envelope(_)) ==> !envelope_ok(*exam, doc.envelope, slices@, pool@),
        r matches Err(SampleFault::Row(_)) ==> envelope_ok(*exam, doc.envelope, slices@, pool@) && !rows_ok(
            *exam,
            files@,
            doc.rows@ + doc.backups@,
            hashes@,
        ),
        r matches Err(SampleFault::Draw(_)) ==> envelope_ok(*exam, doc.envelope, slices@, pool@) && rows_ok(
            *exam,
            files@,
            doc.rows@ + doc.backups@,
            hashes@,
        ) && !draw_ok(drawn_all(doc.rows@), drawn_all(doc.backups@), pool@),
{
    match check_sample_envelope(exam, &doc.envelope, slices, pool) {
        Ok(()) => {},
        Err(e) => {
            return Err(SampleFault::Envelope(e));
        },
    }
    let all = all_rows(doc);
    match check_rows(exam, files, &all, hashes) {
        Ok(()) => {},
        Err(e) => {
            return Err(SampleFault::Row(e));
        },
    }
    let rows = drawn_rows(&doc.rows);
    let backups = drawn_rows(&doc.backups);
    match check_draw(&rows, &backups, pool) {
        Ok(()) => Ok(()),
        Err(e) => Err(SampleFault::Draw(e)),
    }
}

/// A pool whose counts, a hundredfold, fit in a `u64` keeps the quota
/// arithmetic inside `u64`.
proof fn lemma_quota_fits(ps: Seq<u64>)
    requires
        total(ps) * TOTAL <= u64::MAX,
    ensures
        quota_fits(ps),
{
    let n = ps.len() as int;
    assert forall|j: int| 0 <= j < n implies #[trigger] floors_f(ps)(j) >= 0 by {}
    assert forall|j: int| 0 <= j < n implies #[trigger] weights_f(rests(ps))(j) >= 0 by {}
    assert forall|j: int| 0 <= j < n implies #[trigger] weights_f(ps)(j) >= 0 by {}
    lemma_sum_nonneg(n, floors_f(ps));
    lemma_sum_nonneg(n, weights_f(rests(ps)));
    lemma_sum_nonneg(n, weights_f(ps));
    let seats = seats_left(ps);
    assert(0 <= seats <= TOTAL);
    assert forall|i: int| 0 <= i < n implies seats_left(ps) * #[trigger] rests(ps)[i] <= u64::MAX by {
        lemma_sum_nonneg(i, weights_f(ps));
        lemma_prefix_le(n, i + 1, weights_f(ps));
        assert(weights_f(ps)(i) == ps[i]);
        assert(sum_to(i + 1, weights_f(ps)) == sum_to(i, weights_f(ps)) + weights_f(ps)(i));
        let r = rests(ps)[i];
        let tot = total(ps);
        assert(0 <= r <= ps[i] <= tot);
        assert(seats * r <= TOTAL * tot) by (nonlinear_arith)
            requires
                0 <= seats <= TOTAL,
                0 <= r <= tot,
        ;
    }
}

/// `pool` is the per-kind pool the slices' summaries give (what
/// `pool_counts` returns for them): every cell of the exam's language.
pub open spec fn pool_from(lang: Chars, summaries: Seq<Vec<(String, u64)>>, pool: Seq<(String, u64)>) -> bool {
    let pe = pool_entries(lang, slices_view(summaries));
    &&& cells_prefixed(lang, slices_view(summaries))
    &&& canonical(keys_of(entries_view(pool)))
    &&& keys_of(entries_view(pool)).to_set() == keys_of(pe).to_set()
    &&& forall|i: int| 0 <= i < pool.len() ==> (#[trigger] pool[i]).1 as int == sum_for(pe, pool[i].0@)
}

/// A sample holds against a pool: envelope, rows and draw.
pub open spec fn sample_ok(
    exam: Exam,
    doc: SampleDoc,
    slices: Seq<SliceHead>,
    pool: Seq<(String, u64)>,
    files: Seq<FileSites>,
    hashes: Seq<Hashes>,
) -> bool {
    &&& envelope_ok(exam, doc.envelope, slices, pool)
    &&& rows_ok(exam, files, doc.rows@ + doc.backups@, hashes)
    &&& draw_ok(drawn_all(doc.rows@), drawn_all(doc.backups@), pool)
}

/// The slices' summaries give one pool.
proof fn lemma_pool_unique(lang: Chars, summaries: Seq<Vec<(String, u64)>>, p: Seq<(String, u64)>, q: Seq<(String, u64)>)
    requires
        pool_from(lang, summaries, p),
        pool_from(lang, summaries, q),
    ensures
        entries_view(p) == entries_view(q),
{
    crate::text::lemma_canonical_unique(keys_of(entries_view(p)), keys_of(entries_view(q)));
    assert(p.len() == keys_of(entries_view(p)).len());
    assert forall|i: int| 0 <= i < p.len() implies #[trigger] entries_view(p)[i] == entries_view(q)[i] by {
        assert(keys_of(entries_view(p))[i] == keys_of(entries_view(q))[i]);
        assert(p[i].0@ == q[i].0@);
    }
    assert(entries_view(p) =~= entries_view(q));
}

/// What the checks read of a pool is its view.
proof fn lemma_pool_view(
    exam: Exam,
    doc: SampleDoc,
    slices: Seq<SliceHead>,
    files: Seq<FileSites>,
    hashes: Seq<Hashes>,
    p: Seq<(String, u64)>,
    q: Seq<(String, u64)>,
)
    requires
        entries_view(p) == entries_view(q),
    ensures
        counts(p) == counts(q),
        weight_keys(p) == weight_keys(q),
        envelope_ok(exam, doc.envelope, slices, p) == envelope_ok(exam, doc.envelope, slices, q),
        draw_ok(drawn_all(doc.rows@), drawn_all(doc.backups@), p) == draw_ok(drawn_all(doc.rows@), drawn_all(doc.backups@), q),
{
    assert(p.len() == entries_view(p).len());
    assert(q.len() == entries_view(q).len());
    assert forall|i: int| 0 <= i < p.len() implies (#[trigger] p[i]).0@ == q[i].0@ && p[i].1 == q[i].1 by {
        assert(entries_view(p)[i] == entries_view(q)[i]);
    }
    assert(counts(p) =~= counts(q));
    assert(weight_keys(p) =~= weight_keys(q));
    assert(pool_kinds(p) =~= pool_kinds(q));
    let rows = drawn_all(doc.rows@);
    let bs = drawn_all(doc.backups@);
    assert(allocation_ok(doc.envelope.allocation@, p) == allocation_ok(doc.envelope.allocation@, q));
    assert(per_kind_ok(rows, p) == per_kind_ok(rows, q));
    assert forall|i: int| 0 <= i < p.len() implies #[trigger] backups_owed(p, i) == backups_owed(q, i) by {}
    assert(backups_ok(rows, bs, p) == backups_ok(rows, bs, q));
}

/// One frozen sample against its exam and its frozen slices (their
/// heads, and their per-cell site summaries, one list per slice): the
/// pool is re-derived from the summaries, then the envelope, the rows
/// and the draw are checked against it. The sample passes exactly when
/// its summaries give a pool (every cell of the exam's language, the
/// pool small enough for the quota arithmetic) and the sample holds
/// against it; one that fails is refused with the fault of the first
/// check it fails, a value for the caller to report, never a panic.
#[verifier::loop_isolation(false)]
pub fn verify_sample_slices(
    exam: &Exam,
    doc: &SampleDoc,
    slices: &Vec<SliceHead>,
    summaries: &Vec<Vec<(String, u64)>>,
    files: &Vec<FileSites>,
    hashes: &Vec<Hashes>,
) -> (r: Result<(), SampleFault>)
    requires
        slices@.len() == exam.corpora@.len(),
        sums_fit(pool_entries(exam.lang@, slices_view(summaries@))),
        hashes@.len() == doc.rows@.len() + doc.backups@.len(),
    ensures
        r matches Err(SampleFault::Pool) <==> !cells_prefixed(exam.lang@, slices_view(summaries@)),
        forall|pool: Seq<(String, u64)>|
            pool_from(exam.lang@, summaries@, pool) ==> {
                &&& (r matches Err(SampleFault::PoolTooLarge) <==> total(counts(pool)) * TOTAL > u64::MAX)
                &&& (r is Ok <==> total(counts(pool)) * TOTAL <= u64::MAX && sample_ok(
                    *exam,
                    *doc,
                    slices@,
                    pool,
                    files@,
                    hashes@,
                ))
                &&& (r matches Err(SampleFault::Envelope(_)) ==> !envelope_ok(*exam, doc.envelope, slices@, pool))
                &&& (r matches Err(SampleFault::Row(_)) ==> envelope_ok(*exam, doc.envelope, slices@, pool) && !rows_ok(
                    *exam,
                    files@,
                    doc.rows@ + doc.backups@,
                    hashes@,
                ))
                &&& (r matches Err(SampleFault::Draw(_)) ==> envelope_ok(*exam, doc.envelope, slices@, pool) && rows_ok(
                    *exam,
                    files@,
                    doc.rows@ + doc.backups@,
                    hashes@,
                ) && !draw_ok(drawn_all(doc.rows@), drawn_all(doc.backups@), pool))
            },
{
    let pool = match pool_counts(exam.lang.as_str(), summaries) {
        Some(p) => p,
        None => {
            return Err(SampleFault::Pool);
        },
    };
    assert(pool_from(exam.lang@, summaries@, pool@));
    let lim: u64 = 184467440737095516;
    assert(lim * TOTAL <= u64::MAX && (lim + 1) * TOTAL > u64::MAX);
    let ghost ps = counts(pool@);
    proof {
        assert forall|j: int| 0 <= j < ps.len() implies #[trigger] weights_f(ps)(j) >= 0 by {}
    }
    let mut t: u64 = 0;
    let mut i: usize = 0;
    while i < pool.len()
        invariant
            ps == counts(pool@),
            forall|j: int| 0 <= j < ps.len() ==> #[trigger] weights_f(ps)(j) >= 0,
            i <= pool@.len(),
            t as int == sum_to(i as int, weights_f(ps)),
            t <= lim,
            lim == 184467440737095516,
        decreases pool.len() - i,
    {
        assert(weights_f(ps)(i as int) == pool@[i as int].1);
        if pool[i].1 > lim - t {
            proof {
                lemma_prefix_le(ps.len() as int, i + 1, weights_f(ps));
                assert forall|q: Seq<(String, u64)>| pool_from(exam.lang@, summaries@, q) implies total(counts(q)) * TOTAL
                    > u64::MAX by {
                    lemma_pool_unique(exam.lang@, summaries@, pool@, q);
                    lemma_pool_view(*exam, *doc, slices@, files@, hashes@, pool@, q);
                }
            }
            return Err(SampleFault::PoolTooLarge);
        }
        t = t + pool[i].1;
        i += 1;
    }
    proof {
        lemma_quota_fits(ps);
        assert(weight_keys(pool@) =~= keys_of(entries_view(pool@)));
    }
    let r = verify_sample(exam, doc, slices, &pool, files, hashes);
    proof {
        assert forall|q: Seq<(String, u64)>| pool_from(exam.lang@, summaries@, q) implies total(counts(q)) * TOTAL <= u64::MAX
            && envelope_ok(*exam, doc.envelope, slices@, q) == envelope_ok(*exam, doc.envelope, slices@, pool@)
            && draw_ok(drawn_all(doc.rows@), drawn_all(doc.backups@), q) == draw_ok(
            drawn_all(doc.rows@),
            drawn_all(doc.backups@),
            pool@,
        ) by {
            lemma_pool_unique(exam.lang@, summaries@, pool@, q);
            lemma_pool_view(*exam, *doc, slices@, files@, hashes@, pool@, q);
        }
    }
    match r {
        Ok(()) => Ok(()),
        Err(e) => Err(e),
    }
}

} // verus!
