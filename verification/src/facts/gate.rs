//! Gate facts: the two CI floors and the two dedup budgets.

use super::scrape::{second_piece, second_piece_of, ScrapeError};
use super::{is_fact, linked, scraped, Fact, Tier};
use crate::text::{
    canon, canonical, chars_of, dec_chars, decimal, find_at, find_from, front_of, lemma_find_from,
    lines, lines_of, skip_while, slice_vec, string_of, views, ws, Chars, Class, class_pred,
    front_end, lemma_skip_while,
};
use vstd::prelude::*;

verus! {

pub const FLOOR_DEBT: &'static str = "spelled on the ce check line of each CI job; promote = one workflow-level env var the jobs and the docs read";

/// The first whitespace-separated word of `s`, if it has one.
pub open spec fn first_word(s: Chars) -> Option<Chars> {
    let t = skip_while(s, class_pred(Class::Space));
    if t.len() == 0 {
        None
    } else {
        Some(t.take(front_end(t, |c: char| !crate::text::is_space(c), 0)))
    }
}

/// The `--fail-under` words of the lines that run `ce check` on
/// `target`, in order.
pub open spec fn floor_words(ls: Seq<Chars>, target: Chars) -> Seq<Chars>
    decreases ls.len(),
{
    if ls.len() == 0 {
        Seq::empty()
    } else {
        let rest = floor_words(ls.drop_last(), target);
        let l = ls.last();
        if find_from(l, target, 0) is Some && second_piece(l, "--fail-under "@) is Some
            && first_word(second_piece(l, "--fail-under "@)->0) is Some {
            rest.push(first_word(second_piece(l, "--fail-under "@)->0)->0)
        } else {
            rest
        }
    }
}

fn word_of(s: &Vec<char>) -> (r: Option<Vec<char>>)
    ensures
        match first_word(s@) {
            Some(w) => r matches Some(v) && v@ == w,
            None => r is None,
        },
{
    let a = front_of(s, Class::Space);
    let t = slice_vec(s, a, s.len());
    assert(t@ =~= s@.skip(a as int));
    if t.len() == 0 {
        return None;
    }
    let mut b: usize = 0;
    while b < t.len() && !crate::text::space(t[b])
        invariant
            b <= t@.len(),
            front_end(t@, |c: char| !crate::text::is_space(c), 0) == front_end(
                t@,
                |c: char| !crate::text::is_space(c),
                b as int,
            ),
        decreases t.len() - b,
    {
        b += 1;
    }
    let w = slice_vec(&t, 0, b);
    assert(w@ =~= t@.take(b as int));
    Some(w)
}

/// The one `--fail-under N` every ci.yml line running `ce check` on
/// `target` agrees on.
pub fn floor(ci: &str, target: &str) -> (r: Result<String, ScrapeError>)
    ensures
        match r {
            Ok(v) => floor_words(lines(ci@), target@).to_set() == set![v@],
            Err(ScrapeError::Disagree { values, .. }) => canonical(views(values@)) && views(
                values@,
            ).to_set() == floor_words(lines(ci@), target@).to_set() && floor_words(
                lines(ci@),
                target@,
            ).to_set().len() != 1,
            Err(_) => false,
        },
{
    let ls = lines_of(&chars_of(ci));
    let tc = chars_of(target);
    let fu = chars_of("--fail-under ");
    let ghost lm = ls@.map_values(|l: Vec<char>| l@);
    let mut words: Vec<String> = Vec::new();
    let mut i: usize = 0;
    while i < ls.len()
        invariant
            i <= ls@.len(),
            tc@ == target@,
            fu@ == "--fail-under "@,
            lm == ls@.map_values(|l: Vec<char>| l@),
            lm == lines(ci@),
            views(words@) == floor_words(lm.take(i as int), target@),
        decreases ls.len() - i,
    {
        assert(lm.take(i + 1).drop_last() =~= lm.take(i as int));
        assert(lm.take(i + 1).last() == ls@[i as int]@);
        proof {
            lemma_find_from(ls@[i as int]@, tc@, 0);
        }
        if find_at(&ls[i], &tc, 0).is_some() {
            match second_piece_of(&ls[i], &fu) {
                Some(rest) => match word_of(&rest) {
                    Some(w) => {
                        let ghost before = views(words@);
                        words.push(string_of(&w));
                        assert(views(words@) =~= before.push(w@));
                    },
                    None => {},
                },
                None => {},
            }
        }
        i += 1;
    }
    assert(lm.take(ls@.len() as int) =~= lm);
    let ghost all = views(words@);
    let set = canon(words);
    proof {
        views(set@).unique_seq_to_set();
    }
    if set.len() == 1 {
        proof {
            broadcast use vstd::seq_lib::lemma_seq_contains_after_push;
            assert(views(set@) =~= Seq::<Chars>::empty().push(set@[0]@));
            assert(Seq::<Chars>::empty().to_set() =~= Set::<Chars>::empty());
            assert(views(set@).to_set() =~= set![set@[0]@]);
        }
        Ok(string_of(&chars_of(set[0].as_str())))
    } else {
        Err(ScrapeError::Disagree {
            rel: string_of(&chars_of("ci.yml")),
            key: string_of(&chars_of(target)),
            values: set,
        })
    }
}

/// The CI facts: the floor `ce check` runs on the main tree and on the
/// tests, off ci.yml, and the dedup budgets of the two projects, as the
/// product's own config loader reads them.
pub fn facts(ci: &str, main_budget: u64, tests_budget: u64) -> (r: Result<Vec<Fact>, ScrapeError>)
    ensures
        r is Ok <==> (exists|v: Chars| floor_words(lines(ci@), "check .. "@).to_set() == set![v])
            && (exists|v: Chars| floor_words(lines(ci@), "check tests "@).to_set() == set![v]),
        r matches Ok(v) ==> v@.len() == 4 && v@[0].id@ == "gate:floor.main#digits"@ && v@[0].tier
            == Tier::Scraped && floor_words(lines(ci@), "check .. "@).to_set() == set![v@[0].value@]
            && v@[1].id@ == "gate:floor.tests#digits"@ && v@[1].tier == Tier::Scraped && floor_words(
            lines(ci@),
            "check tests "@,
        ).to_set() == set![v@[1].value@] && is_fact(
            v@[2],
            "gate:dedup.main#digits"@,
            dec_chars(main_budget as nat),
            Tier::Linked,
            "ce.toml::[dedup] budget (config::Config::load)"@,
            None,
        ) && is_fact(
            v@[3],
            "gate:dedup.tests#digits"@,
            dec_chars(tests_budget as nat),
            Tier::Linked,
            "cli/tests/ce.toml::[dedup] budget (config::Config::load)"@,
            None,
        ),
{
    let main = match floor(ci, "check .. ") {
        Ok(v) => v,
        Err(e) => {
            proof {
                lemma_not_one("check .. "@, ci@);
            }
            return Err(e);
        },
    };
    let tests = match floor(ci, "check tests ") {
        Ok(v) => v,
        Err(e) => {
            proof {
                lemma_not_one("check tests "@, ci@);
            }
            return Err(e);
        },
    };
    let mut v: Vec<Fact> = Vec::new();
    v.push(scraped("gate:floor.main#digits", main.as_str(), ".github/workflows/ci.yml::--fail-under (check ..)", FLOOR_DEBT));
    v.push(scraped("gate:floor.tests#digits", tests.as_str(), ".github/workflows/ci.yml::--fail-under (check tests)", FLOOR_DEBT));
    v.push(linked("gate:dedup.main#digits", string_of(&decimal(main_budget)).as_str(), "ce.toml::[dedup] budget (config::Config::load)"));
    v.push(linked("gate:dedup.tests#digits", string_of(&decimal(tests_budget)).as_str(), "cli/tests/ce.toml::[dedup] budget (config::Config::load)"));
    Ok(v)
}

/// A set of size other than one is no singleton.
pub proof fn lemma_not_one(target: Chars, ci: Chars)
    requires
        floor_words(lines(ci), target).to_set().len() != 1,
    ensures
        forall|v: Chars| floor_words(lines(ci), target).to_set() != set![v],
{
    assert forall|v: Chars| floor_words(lines(ci), target).to_set() != set![v] by {
        if floor_words(lines(ci), target).to_set() == set![v] {
            assert(set![v].len() == 1);
        }
    }
}

} // verus!
