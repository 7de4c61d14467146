//! The marked-block channel: `<!-- name:begin -->` … `<!-- name:end -->`
//! around a generated region of an authored page. One splicer: the page
//! outside the block is authored and never touched; the block is
//! compared with its rendering and, when behind, rewritten whole.

use crate::text::{
    chars_of, concat, find_at, find_from, lemma_find_agree, lemma_find_from, lemma_replace_absent, replace_all, replace_from, same,
    slice_vec, string_of, Chars,
};
use vstd::prelude::*;

verus! {

/// What a splice found.
pub enum Splice {
    /// The block already holds its rendering.
    Current,
    /// The block is behind: the note naming it, and the page with the
    /// block rewritten.
    Behind { note: String, page: String },
}

/// Why a page cannot be spliced.
#[derive(Debug)]
pub enum BlockError {
    /// The page has no begin marker.
    NoBegin { rel: String, marker: String },
    /// The page has no end marker after its begin marker.
    NoEnd { rel: String, marker: String },
}

pub open spec fn begin_tag(marker: Chars) -> Chars {
    "<!-- "@ + marker + ":begin -->"@
}

pub open spec fn end_tag(marker: Chars) -> Chars {
    "<!-- "@ + marker + ":end -->"@
}

/// The page with CRLF line ends read as LF.
pub open spec fn normalized(page: Chars) -> Chars {
    replace_from(page, "\r\n"@, "\n"@, 0)
}

/// The three parts of a page around its block: before the first begin
/// marker, the block up to the next end marker, and after it.
pub open spec fn parts(page: Chars, marker: Chars) -> Option<(Chars, Chars, Chars)> {
    let p = normalized(page);
    match find_from(p, begin_tag(marker), 0) {
        None => None,
        Some(b) => {
            let rest = p.skip(b + begin_tag(marker).len());
            match find_from(rest, end_tag(marker), 0) {
                None => None,
                Some(e) => Some((p.take(b), rest.take(e), rest.skip(e + end_tag(marker).len()))),
            }
        },
    }
}

/// The note for a block behind its rendering.
pub open spec fn behind_note(rel: Chars, marker: Chars) -> Chars {
    rel + ": "@ + marker + " block is behind its rendering (CE_BLESS=1 regenerates)"@
}

/// The block of the page against its rendering (`"\n"` before it).
pub open spec fn splice_spec(page: Chars, rel: Chars, marker: Chars, rendered: Chars) -> Option<
    Option<(Chars, Chars)>,
> {
    match parts(page, marker) {
        None => None,
        Some((head, block, tail)) => {
            let want = seq!['\n'] + rendered;
            if block == want {
                Some(None)
            } else {
                Some(
                    Some(
                        (
                            behind_note(rel, marker),
                            head + begin_tag(marker) + want + end_tag(marker) + tail,
                        ),
                    ),
                )
            }
        },
    }
}

fn cat(parts: &Vec<&str>) -> (out: Vec<char>)
    ensures
        out@ == crate::text::concat_all(parts@.map_values(|s: &str| s@)),
{
    let mut out: Vec<char> = Vec::new();
    let mut i: usize = 0;
    while i < parts.len()
        invariant
            i <= parts@.len(),
            out@ == crate::text::concat_all(parts@.map_values(|s: &str| s@).take(i as int)),
        decreases parts.len() - i,
    {
        let c = chars_of(parts[i]);
        let ghost before = out@;
        out = concat(&out, &c);
        assert(parts@.map_values(|s: &str| s@).take(i + 1).drop_last() =~= parts@.map_values(
            |s: &str| s@,
        ).take(i as int));
        i += 1;
    }
    assert(parts@.map_values(|s: &str| s@).take(parts@.len() as int) =~= parts@.map_values(
        |s: &str| s@,
    ));
    out
}

/// Splice `rendered` into the `marker` block of the page `rel`: the
/// block is current, or behind (with the note and the rewritten page);
/// a missing marker is a refusal.
pub fn splice(page: &str, rel: &str, marker: &str, rendered: &str) -> (r: Result<Splice, BlockError>)
    ensures
        match (r, splice_spec(page@, rel@, marker@, rendered@)) {
            (Ok(Splice::Current), Some(None)) => true,
            (Ok(Splice::Behind { note, page: p }), Some(Some((n, q)))) => note@ == n && p@ == q,
            (Err(_), None) => true,
            _ => false,
        },
{
    proof {
        reveal_strlit("\r\n");
        reveal_strlit("\n");
    }
    let p = replace_all(&chars_of(page), &chars_of("\r\n"), &chars_of("\n"));
    let begin = cat(&vec!["<!-- ", marker, ":begin -->"]);
    let end = cat(&vec!["<!-- ", marker, ":end -->"]);
    proof {
        reveal_with_fuel(crate::text::concat_all, 4);
        assert(begin@ =~= begin_tag(marker@));
        assert(end@ =~= end_tag(marker@));
        lemma_find_from(p@, begin@, 0);
    }
    let b = match find_at(&p, &begin, 0) {
        Some(b) => b,
        None => {
            return Err(BlockError::NoBegin { rel: string_of(&chars_of(rel)), marker: string_of(&chars_of(marker)) });
        },
    };
    let n = p.len();
    assert(b + begin@.len() <= n);
    let rest = slice_vec(&p, b + begin.len(), n);
    assert(rest@ =~= p@.skip(b + begin@.len()));
    proof {
        lemma_find_from(rest@, end@, 0);
    }
    let e = match find_at(&rest, &end, 0) {
        Some(e) => e,
        None => {
            return Err(BlockError::NoEnd { rel: string_of(&chars_of(rel)), marker: string_of(&chars_of(marker)) });
        },
    };
    let m = rest.len();
    assert(e + end@.len() <= m);
    let head = slice_vec(&p, 0, b);
    let block = slice_vec(&rest, 0, e);
    let tail = slice_vec(&rest, e + end.len(), m);
    assert(head@ =~= p@.take(b as int));
    assert(block@ =~= rest@.take(e as int));
    assert(tail@ =~= rest@.skip(e + end@.len()));
    let mut want: Vec<char> = Vec::new();
    want.push('\n');
    let want = concat(&want, &chars_of(rendered));
    assert(want@ =~= seq!['\n'] + rendered@);
    if same(&block, &want) {
        return Ok(Splice::Current);
    }
    let note = cat(&vec![rel, ": ", marker, " block is behind its rendering (CE_BLESS=1 regenerates)"]);
    let mut out = concat(&head, &begin);
    out = concat(&out, &want);
    out = concat(&out, &end);
    out = concat(&out, &tail);
    proof {
        reveal_with_fuel(crate::text::concat_all, 5);
        assert(note@ =~= behind_note(rel@, marker@));
    }
    Ok(Splice::Behind { note: string_of(&note), page: string_of(&out) })
}

/// `splice`, refusing a block behind its rendering with its note.
pub fn assert_current(page: &str, rel: &str, marker: &str, rendered: &str) -> (r: Result<
    (),
    String,
>)
    ensures
        match (r, splice_spec(page@, rel@, marker@, rendered@)) {
            (Ok(()), Some(None)) => true,
            (Err(note), Some(Some((n, _)))) => note@ == n,
            (Err(_), None) => true,
            _ => false,
        },
{
    match splice(page, rel, marker, rendered) {
        Ok(Splice::Current) => Ok(()),
        Ok(Splice::Behind { note, .. }) => Err(note),
        Err(BlockError::NoBegin { rel: r, marker: m }) => Err(string_of(&cat(&vec![r.as_str(), ": no begin marker for ", m.as_str()]))),
        Err(BlockError::NoEnd { rel: r, marker: m }) => Err(string_of(&cat(&vec![r.as_str(), ": no end marker for ", m.as_str()]))),
    }
}

/// A text free of carriage returns is its own normalization.
proof fn lemma_normalized_plain(page: Chars)
    requires
        forall|k: int| 0 <= k < page.len() ==> page[k] != '\r',
    ensures
        normalized(page) == page,
{
    reveal_strlit("\r\n");
    lemma_replace_absent(page, "\r\n"@, "\n"@, 0);
    assert(page.skip(0) =~= page);
}

/// The page a bless writes holds a current block: splicing the same
/// rendering into it again finds nothing to write. Pages, markers and
/// renderings here carry no carriage return, and the rendering closes
/// only at its end marker.
pub proof fn lemma_bless_current(page: Chars, rel: Chars, marker: Chars, rendered: Chars)
    requires
        forall|k: int| 0 <= k < page.len() ==> page[k] != '\r',
        forall|k: int| 0 <= k < marker.len() ==> marker[k] != '\r',
        forall|k: int| 0 <= k < rendered.len() ==> rendered[k] != '\r',
        find_from(seq!['\n'] + rendered + end_tag(marker), end_tag(marker), 0) == Some(
            rendered.len() + 1int,
        ),
        splice_spec(page, rel, marker, rendered) is Some,
    ensures
        splice_spec(page, rel, marker, rendered) matches Some(Some((_, q))) ==> splice_spec(
            q,
            rel,
            marker,
            rendered,
        ) == Some(None::<(Chars, Chars)>),
{
    if let Some(Some((n, q))) = splice_spec(page, rel, marker, rendered) {
        reveal_strlit("<!-- ");
        reveal_strlit(":begin -->");
        reveal_strlit(":end -->");
        lemma_normalized_plain(page);
        let bt = begin_tag(marker);
        let et = end_tag(marker);
        let want = seq!['\n'] + rendered;
        let b = find_from(page, bt, 0)->0;
        lemma_find_from(page, bt, 0);
        let rest = page.skip(b + bt.len());
        let e = find_from(rest, et, 0)->0;
        lemma_find_from(rest, et, 0);
        let head = page.take(b);
        let tail = rest.skip(e + et.len());
        assert(q == head + bt + want + et + tail);
        assert forall|k: int| 0 <= k < q.len() implies q[k] != '\r' by {
            if k < head.len() {
                assert(q[k] == page[k]);
            } else if k < head.len() + bt.len() {
                assert(q[k] == bt[k - head.len()]);
            } else if k < head.len() + bt.len() + want.len() {
                assert(q[k] == want[k - head.len() - bt.len()]);
            } else if k < head.len() + bt.len() + want.len() + et.len() {
                assert(q[k] == et[k - head.len() - bt.len() - want.len()]);
            } else {
                assert(q[k] == tail[k - head.len() - bt.len() - want.len() - et.len()]);
                assert(tail[k - head.len() - bt.len() - want.len() - et.len()] == page[k - head.len()
                    - bt.len() - want.len() - et.len() + b + bt.len() + e + et.len()]);
            }
        }
        lemma_normalized_plain(q);
        assert(page.take(b + bt.len()) =~= q.take(b + bt.len()));
        lemma_find_agree(page, q, bt, b);
        let qrest = q.skip(b + bt.len());
        assert(qrest =~= want + et + tail);
        let we = want + et;
        assert(we.take((want.len() + et.len()) as int) =~= qrest.take((want.len() + et.len()) as int));
        lemma_find_agree(we, qrest, et, want.len() as int);
        assert(qrest.take(want.len() as int) =~= want);
    }
}

} // verus!
