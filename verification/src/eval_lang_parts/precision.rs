//! The frozen precision doc's universe ledger against the frozen
//! universe it measured: its tallies and the walk's refused sites add
//! up, cell by cell, to the slice's own sites.

use crate::eval_support::tally::{entries_view, keys_of, sum_for, sums_fit, tallied, tally};
use crate::text::{chars_of, lemma_canonical_unique, rfind_char, rindex, same, slice_vec, string_of, Chars};
use vstd::prelude::*;

verus! {

/// The `lang/kind` cell of a `lang/kind/outcome` ledger key: the key
/// up to its last `/`.
pub open spec fn cell_of(key: Chars) -> Chars {
    match rindex(key, '/') {
        Some(i) => key.take(i),
        None => key,
    }
}

/// Every ledger key names its cell.
pub open spec fn all_cells(es: Seq<(Chars, u64)>) -> bool {
    forall|i: int| 0 <= i < es.len() ==> (#[trigger] rindex(es[i].0, '/')) is Some
}

/// What the universe's sites must add up to, cell by cell: the
/// answered and the refused sites of the ledger by their cells, and
/// the sites of the files the walk refuses.
pub open spec fn ledger_cells(
    by: Seq<(Chars, u64)>,
    refused: Seq<(Chars, u64)>,
    gone: Seq<(Chars, u64)>,
) -> Seq<(Chars, u64)> {
    (by + refused).map_values(|e: (Chars, u64)| (cell_of(e.0), e.1)) + gone
}

/// Why a ledger does not add up to its universe.
#[derive(Debug)]
pub enum LedgerFault {
    /// A ledger key names no `lang/kind` cell (the first such).
    Cell { key: String },
    /// The ledger and the refused sites are not the frozen universe.
    Drifted,
}

fn same_entries(a: &Vec<(String, u64)>, b: &Vec<(String, u64)>) -> (r: bool)
    ensures
        r == (entries_view(a@) == entries_view(b@)),
{
    if a.len() != b.len() {
        assert(entries_view(a@).len() != entries_view(b@).len());
        return false;
    }
    let mut i: usize = 0;
    while i < a.len()
        invariant
            a@.len() == b@.len(),
            i <= a@.len(),
            forall|j: int| 0 <= j < i ==> entries_view(a@)[j] == entries_view(b@)[j],
        decreases a.len() - i,
    {
        if !same(&chars_of(a[i].0.as_str()), &chars_of(b[i].0.as_str())) || a[i].1 != b[i].1 {
            assert(entries_view(a@)[i as int] != entries_view(b@)[i as int]);
            return false;
        }
        i += 1;
    }
    assert(entries_view(a@) =~= entries_view(b@));
    true
}

pub open spec fn cells(es: Seq<(Chars, u64)>) -> Seq<(Chars, u64)> {
    es.map_values(|e: (Chars, u64)| (cell_of(e.0), e.1))
}

/// Each entry of `v` by its cell, onto `es`; or the first key that
/// names no cell.
fn cells_into(v: &Vec<(String, u64)>, es: &mut Vec<(String, u64)>) -> (r: Option<String>)
    ensures
        r is None ==> all_cells(entries_view(v@)) && entries_view(final(es)@) == entries_view(old(es)@) + cells(
            entries_view(v@),
        ),
        r matches Some(key) ==> keys_of(entries_view(v@)).contains(key@) && rindex(key@, '/') is None,
{
    let ghost ev = entries_view(v@);
    let ghost start = entries_view(es@);
    let mut i: usize = 0;
    while i < v.len()
        invariant
            ev == entries_view(v@),
            i <= v@.len(),
            all_cells(ev.take(i as int)),
            entries_view(es@) == start + cells(ev.take(i as int)),
        decreases v.len() - i,
    {
        let key = chars_of(v[i].0.as_str());
        assert(ev[i as int] == (key@, v@[i as int].1));
        let _n = key.len();
        proof {
            crate::text::lemma_rindex_to(key@, '/', key@.len() as int);
        }
        match rfind_char(&key, '/') {
            Some(k) => {
                assert(k < key@.len());
                let cell = slice_vec(&key, 0, k);
                let ghost before = entries_view(es@);
                es.push((string_of(&cell), v[i].1));
                proof {
                    assert(rindex(key@, '/') == Some(k as int));
                    assert(cell@ =~= cell_of(key@));
                    assert(ev.take(i + 1) =~= ev.take(i as int).push(ev[i as int]));
                    assert(entries_view(es@) =~= before.push((cell_of(key@), v@[i as int].1)));
                    assert(cells(ev.take(i + 1)) =~= cells(ev.take(i as int)).push((cell_of(key@), v@[i as int].1)));
                    assert forall|j: int| 0 <= j < i + 1 implies (#[trigger] rindex(ev.take(i + 1)[j].0, '/')) is Some by {
                        if j < i {
                            assert(ev.take(i + 1)[j] == ev.take(i as int)[j]);
                        }
                    }
                }
            },
            None => {
                assert(keys_of(ev)[i as int] == key@);
                return Some(string_of(&key));
            },
        }
        i += 1;
    }
    assert(ev.take(v@.len() as int) =~= ev);
    None
}

/// The ledger's tallies (`resolution_by`, `unresolved_by`) and the
/// walk's refused sites against the frozen slice's sites per cell: each
/// ledger key cut to its cell, all of them with the refused sites
/// summed per cell, must be the slice's `sites_by`, cell by cell.
pub fn ledger_adds_up(
    by: &Vec<(String, u64)>,
    refused: &Vec<(String, u64)>,
    gone: &Vec<(String, u64)>,
    sites_by: &Vec<(String, u64)>,
) -> (r: Result<(), LedgerFault>)
    requires
        sums_fit(ledger_cells(entries_view(by@), entries_view(refused@), entries_view(gone@))),
    ensures
        r is Ok <==> all_cells(entries_view(by@) + entries_view(refused@)) && tallied(
            sites_by@,
            ledger_cells(entries_view(by@), entries_view(refused@), entries_view(gone@)),
        ),
        r matches Err(LedgerFault::Cell { key }) ==> keys_of(entries_view(by@) + entries_view(refused@)).contains(
            key@,
        ) && rindex(key@, '/') is None,
        r matches Err(LedgerFault::Drifted) ==> all_cells(entries_view(by@) + entries_view(refused@)),
{
    let ghost both = entries_view(by@) + entries_view(refused@);
    let ghost want = ledger_cells(entries_view(by@), entries_view(refused@), entries_view(gone@));
    let mut es: Vec<(String, u64)> = Vec::new();
    match cells_into(by, &mut es) {
        Some(key) => {
            proof {
                let x = choose|x: int| 0 <= x < keys_of(entries_view(by@)).len() && keys_of(entries_view(by@))[x] == key@;
                assert(keys_of(both)[x] == key@);
            }
            return Err(LedgerFault::Cell { key });
        },
        None => {},
    }
    match cells_into(refused, &mut es) {
        Some(key) => {
            proof {
                let x = choose|x: int| 0 <= x < keys_of(entries_view(refused@)).len() && keys_of(entries_view(refused@))[x] == key@;
                assert(keys_of(both)[by@.len() + x] == key@);
                assert(rindex(both[by@.len() + x].0, '/') is None);
            }
            return Err(LedgerFault::Cell { key });
        },
        None => {},
    }
    proof {
        assert(entries_view(es@) =~= cells(entries_view(by@)) + cells(entries_view(refused@)));
        assert(cells(both) =~= cells(entries_view(by@)) + cells(entries_view(refused@)));
        assert forall|j: int| 0 <= j < both.len() implies (#[trigger] rindex(both[j].0, '/')) is Some by {
            if j < by@.len() {
                assert(both[j] == entries_view(by@)[j]);
            } else {
                assert(both[j] == entries_view(refused@)[j - by@.len()]);
            }
        }
    }
    let mut j: usize = 0;
    while j < gone.len()
        invariant
            entries_view(es@) == cells(both) + entries_view(gone@).take(j as int),
            j <= gone@.len(),
        decreases gone.len() - j,
    {
        let ghost before = entries_view(es@);
        es.push((gone[j].0.clone(), gone[j].1));
        assert(entries_view(es@) =~= before.push(entries_view(gone@)[j as int]));
        assert(entries_view(gone@).take(j + 1) =~= entries_view(gone@).take(j as int).push(
            entries_view(gone@)[j as int],
        ));
        j += 1;
    }
    assert(entries_view(gone@).take(gone@.len() as int) =~= entries_view(gone@));
    assert(entries_view(es@) =~= want);
    let t = tally(&es);
    if same_entries(&t, sites_by) {
        proof {
            assert(t@.len() == sites_by@.len()) by {
                assert(entries_view(t@).len() == entries_view(sites_by@).len());
            }
            assert(keys_of(entries_view(sites_by@)) =~= keys_of(entries_view(t@)));
            assert forall|x: int| 0 <= x < sites_by@.len() implies (#[trigger] sites_by@[x]).1 as int == sum_for(
                want,
                sites_by@[x].0@,
            ) by {
                assert(entries_view(t@)[x] == entries_view(sites_by@)[x]);
                assert(t@[x].1 as int == sum_for(want, t@[x].0@));
            }
        }
        Ok(())
    } else {
        proof {
            if tallied(sites_by@, want) {
                lemma_canonical_unique(keys_of(entries_view(sites_by@)), keys_of(entries_view(t@)));
                assert(keys_of(entries_view(sites_by@)).len() == keys_of(entries_view(t@)).len());
                assert forall|x: int| 0 <= x < entries_view(t@).len() implies entries_view(t@)[x] == entries_view(
                    sites_by@,
                )[x] by {
                    assert(keys_of(entries_view(sites_by@))[x] == keys_of(entries_view(t@))[x]);
                    assert(sites_by@[x].1 as int == sum_for(want, sites_by@[x].0@));
                    assert(t@[x].1 as int == sum_for(want, t@[x].0@));
                }
                assert(entries_view(t@) =~= entries_view(sites_by@));
            }
        }
        Err(LedgerFault::Drifted)
    }
}

} // verus!
