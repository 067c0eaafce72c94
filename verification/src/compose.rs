//! The composer: merges the ordered section list with the enumerated
//! source lines into the final labeled document, one output line per
//! sequence element.

use vstd::prelude::*;
use crate::models::{LyricSection, Lyrics, RangeOrNumber};
use crate::text::{append_str, trim_of, trim_str};

verus! {

/// Whether a selector claims line index `i`.  A range claims the
/// indices between its bounds inclusively, so a range whose low bound
/// exceeds its high bound claims nothing.
pub open spec fn spec_sel_matches(w: RangeOrNumber, i: nat) -> bool {
    match w {
        RangeOrNumber::Number(n) => i == n,
        RangeOrNumber::Range(lo, hi) => lo <= i && i <= hi,
    }
}

/// The texts of the lines the selector claims, kept in list order.
pub open spec fn spec_section_body(w: RangeOrNumber, list: Seq<(usize, String)>) -> Seq<Seq<char>>
    decreases list.len(),
{
    if list.len() == 0 {
        Seq::empty()
    } else {
        let rest = spec_section_body(w, list.drop_last());
        if spec_sel_matches(w, list.last().0 as nat) {
            rest.push(list.last().1@)
        } else {
            rest
        }
    }
}

/// The labeled group header line of a section.
pub open spec fn spec_header_line(sec: LyricSection) -> Seq<char> {
    "["@ + sec.header@ + "]"@
}

/// One section's whole output block: its header line, then the lines
/// its selector claims.
pub open spec fn spec_section_block(sec: LyricSection, list: Seq<(usize, String)>) -> Seq<
    Seq<char>,
> {
    seq![spec_header_line(sec)] + spec_section_body(sec.words, list)
}

/// All sections' blocks, in declared section order.
pub open spec fn spec_sections_out(secs: Seq<LyricSection>, list: Seq<(usize, String)>) -> Seq<
    Seq<char>,
>
    decreases secs.len(),
{
    if secs.len() == 0 {
        Seq::empty()
    } else {
        spec_sections_out(secs.drop_last(), list) + spec_section_block(secs.last(), list)
    }
}

/// The optional title line, and the optional author line with the
/// blank line that follows it.
pub open spec fn spec_prefix(ly: Lyrics) -> Seq<Seq<char>> {
    (match ly.song_name {
        Some(name) => seq![name@],
        None => Seq::<Seq<char>>::empty(),
    }) + (match ly.author {
        Some(artist) => seq!["("@ + artist@ + ")"@, Seq::<char>::empty()],
        None => Seq::<Seq<char>>::empty(),
    })
}

/// The whole composed document, as a sequence of output lines.
pub open spec fn spec_compose(ly: Lyrics, list: Seq<(usize, String)>) -> Seq<Seq<char>> {
    spec_prefix(ly) + spec_sections_out(ly.sections@, list) + seq!["~~~"@]
}

/// The character sequences a list of strings holds.
pub open spec fn lines_view(s: Seq<String>) -> Seq<Seq<char>> {
    Seq::new(s.len(), |i: int| s[i]@)
}

impl Lyrics {
    /// Composes the final document from this description and the
    /// enumerated source lines.
    ///
    /// Output section order equals declared section order; within a
    /// section the lines the selector claims appear in list order; a
    /// section that claims no line still contributes its header line;
    /// a fixed terminator line closes the document.
    pub fn compose(&self, lyric_list: &Vec<(usize, String)>) -> (r: Vec<String>)
        ensures
            lines_view(r@) == spec_compose(*self, lyric_list@),
    {
        let mut out: Vec<String> = Vec::new();
        match &self.song_name {
            Some(name) => out.push(name.clone()),
            None => (),
        }
        match &self.author {
            Some(artist) => {
                let mut line: String = "(".to_owned();
                append_str(&mut line, artist.as_str());
                append_str(&mut line, ")");
                out.push(line);
                out.push(String::new());
            },
            None => (),
        }
        proof {
            assert(lines_view(out@) =~= spec_prefix(*self));
        }
        let mut si: usize = 0;
        while si < self.sections.len()
            invariant
                si <= self.sections@.len(),
                lines_view(out@) =~= spec_prefix(*self) + spec_sections_out(
                    self.sections@.take(si as int),
                    lyric_list@,
                ),
            decreases self.sections@.len() - si,
        {
            let sec = &self.sections[si];
            let mut line: String = "[".to_owned();
            append_str(&mut line, sec.header.as_str());
            append_str(&mut line, "]");
            out.push(line);
            proof {
                assert(lines_view(out@) =~= spec_prefix(*self) + spec_sections_out(
                    self.sections@.take(si as int),
                    lyric_list@,
                ) + seq![spec_header_line(self.sections@[si as int])]);
                assert(lyric_list@.take(0) =~= Seq::<(usize, String)>::empty());
            }
            let mut li: usize = 0;
            while li < lyric_list.len()
                invariant
                    si < self.sections@.len(),
                    li <= lyric_list@.len(),
                    sec == self.sections@[si as int],
                    lines_view(out@) =~= spec_prefix(*self) + spec_sections_out(
                        self.sections@.take(si as int),
                        lyric_list@,
                    ) + seq![spec_header_line(self.sections@[si as int])] + spec_section_body(
                        sec.words,
                        lyric_list@.take(li as int),
                    ),
                decreases lyric_list@.len() - li,
            {
                let pair = &lyric_list[li];
                let matched: bool = match sec.words {
                    RangeOrNumber::Number(n) => pair.0 == n as usize,
                    RangeOrNumber::Range(lo, hi) => (lo as usize) <= pair.0 && pair.0 <= (
                    hi as usize),
                };
                proof {
                    assert(matched == spec_sel_matches(sec.words, lyric_list@[li as int].0 as nat));
                    assert(lyric_list@.take(li + 1).drop_last() =~= lyric_list@.take(li as int));
                    assert(lyric_list@.take(li + 1).last() == lyric_list@[li as int]);
                }
                let ghost pre = out@;
                let ghost body_old = spec_section_body(sec.words, lyric_list@.take(li as int));
                let ghost body_new = spec_section_body(sec.words, lyric_list@.take(li + 1));
                if matched {
                    out.push(pair.1.clone());
                }
                proof {
                    assert(body_new == if matched {
                        body_old.push(lyric_list@[li as int].1@)
                    } else {
                        body_old
                    });
                    if matched {
                        assert(out@ == pre.push(out@.last()));
                        assert(out@.last()@ == lyric_list@[li as int].1@);
                        assert(lines_view(out@) =~= lines_view(pre).push(
                            lyric_list@[li as int].1@,
                        ));
                    }
                    assert(lines_view(out@) =~= spec_prefix(*self) + spec_sections_out(
                        self.sections@.take(si as int),
                        lyric_list@,
                    ) + seq![spec_header_line(self.sections@[si as int])] + body_new);
                }
                li += 1;
            }
            proof {
                assert(lyric_list@.take(lyric_list@.len() as int) =~= lyric_list@);
                assert(self.sections@.take(si + 1).drop_last() =~= self.sections@.take(si as int));
                assert(self.sections@.take(si + 1).last() == self.sections@[si as int]);
            }
            si += 1;
        }
        proof {
            assert(self.sections@.take(self.sections@.len() as int) =~= self.sections@);
        }
        out.push("~~~".to_owned());
        proof {
            assert(lines_view(out@) =~= spec_compose(*self, lyric_list@));
        }
        out
    }
}

/// Pairs each raw line with its position and trims its surrounding
/// whitespace, keeping the original order.
pub fn enumerated_lyrics(raw_lyrics: &Vec<String>) -> (r: Vec<(usize, String)>)
    ensures
        r@.len() == raw_lyrics@.len(),
        forall|i: int|
            0 <= i < r@.len() ==> (#[trigger] r@[i]).0 == i && r@[i].1@ == trim_of(
                raw_lyrics@[i]@,
            ),
{
    let mut r: Vec<(usize, String)> = Vec::new();
    let mut i: usize = 0;
    while i < raw_lyrics.len()
        invariant
            i <= raw_lyrics@.len(),
            r@.len() == i,
            forall|k: int|
                0 <= k < i ==> (#[trigger] r@[k]).0 == k && r@[k].1@ == trim_of(raw_lyrics@[k]@),
        decreases raw_lyrics@.len() - i,
    {
        let trimmed = trim_str(raw_lyrics[i].as_str()).to_owned();
        r.push((i, trimmed));
        i += 1;
    }
    r
}

/// The (index, text) pairs a selector claims, kept in list order.
pub open spec fn spec_claimed(w: RangeOrNumber, list: Seq<(usize, String)>) -> Seq<
    (usize, String),
>
    decreases list.len(),
{
    if list.len() == 0 {
        Seq::empty()
    } else {
        let rest = spec_claimed(w, list.drop_last());
        if spec_sel_matches(w, list.last().0 as nat) {
            rest.push(list.last())
        } else {
            rest
        }
    }
}

/// Every claimed pair comes from the list and satisfies the selector.
pub proof fn lemma_claimed_membership(w: RangeOrNumber, list: Seq<(usize, String)>, i: int)
    requires
        0 <= i < spec_claimed(w, list).len(),
    ensures
        exists|j: int|
            0 <= j < list.len() && list[j] == spec_claimed(w, list)[i] && spec_sel_matches(
                w,
                (#[trigger] list[j]).0 as nat,
            ),
    decreases list.len(),
{
    let m = spec_claimed(w, list);
    if list.len() > 0 {
        let rest = spec_claimed(w, list.drop_last());
        if spec_sel_matches(w, list.last().0 as nat) && i == m.len() - 1 {
            assert(list[list.len() - 1] == m[i]);
        } else {
            lemma_claimed_membership(w, list.drop_last(), i);
            let j = choose|j: int|
                0 <= j < list.drop_last().len() && list.drop_last()[j] == spec_claimed(
                    w,
                    list.drop_last(),
                )[i] && spec_sel_matches(w, (#[trigger] list.drop_last()[j]).0 as nat);
            assert(list[j] == list.drop_last()[j]);
        }
    }
}

/// A section's body lines are exactly the texts of the pairs its
/// selector claims, in the same order.
pub proof fn lemma_body_is_claimed_texts(w: RangeOrNumber, list: Seq<(usize, String)>)
    ensures
        spec_section_body(w, list).len() == spec_claimed(w, list).len(),
        forall|i: int|
            0 <= i < spec_claimed(w, list).len() ==> spec_section_body(w, list)[i] == (
            #[trigger] spec_claimed(w, list)[i]).1@,
    decreases list.len(),
{
    if list.len() > 0 {
        lemma_body_is_claimed_texts(w, list.drop_last());
    }
}

/// A line appears among a selector's claimed pairs if and only if the
/// selector matches its index: under `Number(n)` exactly the index
/// equal to `n`, under `Range(lo, hi)` exactly the indices between
/// the bounds inclusively.
pub proof fn lemma_selector_correct(w: RangeOrNumber, list: Seq<(usize, String)>, k: int)
    requires
        0 <= k < list.len(),
    ensures
        spec_claimed(w, list).contains(list[k]) <==> spec_sel_matches(w, list[k].0 as nat),
    decreases list.len(),
{
    let m = spec_claimed(w, list);
    if spec_sel_matches(w, list[k].0 as nat) {
        if k == list.len() - 1 {
            assert(m[m.len() - 1] == list[k]);
            assert(m.contains(list[k]));
        } else {
            lemma_selector_correct(w, list.drop_last(), k);
            assert(list.drop_last()[k] == list[k]);
            let rest = spec_claimed(w, list.drop_last());
            let i = choose|i: int| 0 <= i < rest.len() && rest[i] == list[k];
            if spec_sel_matches(w, list.last().0 as nat) {
                assert(m == rest.push(list.last()));
            }
            assert(m[i] == list[k]);
            assert(m.contains(list[k]));
        }
    }
    if m.contains(list[k]) {
        let i = choose|i: int| 0 <= i < m.len() && m[i] == list[k];
        lemma_claimed_membership(w, list, i);
    }
}

/// When the source list is in ascending index order, so is every
/// section body: the composer emits claimed lines in non-decreasing
/// original-index order.
pub proof fn lemma_section_lines_in_index_order(w: RangeOrNumber, list: Seq<(usize, String)>)
    requires
        forall|i: int, j: int|
            0 <= i <= j < list.len() ==> (#[trigger] list[i]).0 <= (#[trigger] list[j]).0,
    ensures
        forall|i: int, j: int|
            0 <= i <= j < spec_claimed(w, list).len() ==> (#[trigger] spec_claimed(w, list)[i]).0
                <= (#[trigger] spec_claimed(w, list)[j]).0,
    decreases list.len(),
{
    let m = spec_claimed(w, list);
    if list.len() > 0 {
        let rest = spec_claimed(w, list.drop_last());
        assert(forall|i: int, j: int|
            0 <= i <= j < list.drop_last().len() ==> (#[trigger] list.drop_last()[i]).0 <= (
            #[trigger] list.drop_last()[j]).0);
        lemma_section_lines_in_index_order(w, list.drop_last());
        if spec_sel_matches(w, list.last().0 as nat) {
            assert(forall|i: int| 0 <= i < rest.len() ==> (#[trigger] rest[i]).0
                <= list.last().0) by {
                assert forall|i: int| 0 <= i < rest.len() implies (#[trigger] rest[i]).0
                    <= list.last().0 by {
                    lemma_claimed_membership(w, list.drop_last(), i);
                }
            }
        }
    }
}

/// The composed document keeps the declared section order: section
/// `k`'s header line stands at the start of block `k`, and the lines
/// its selector claims follow it directly.
pub proof fn lemma_compose_section_order(
    secs: Seq<LyricSection>,
    list: Seq<(usize, String)>,
    k: int,
)
    requires
        0 <= k < secs.len(),
    ensures
        ({
            let out = spec_sections_out(secs, list);
            let start = spec_sections_out(secs.take(k), list).len() as int;
            let body = spec_section_body(secs[k].words, list);
            &&& start + body.len() < out.len()
            &&& out[start] == spec_header_line(secs[k])
            &&& forall|j: int| 0 <= j < body.len() ==> out[start + 1 + j] == body[j]
        }),
    decreases secs.len(),
{
    let out = spec_sections_out(secs, list);
    let start = spec_sections_out(secs.take(k), list).len() as int;
    let body = spec_section_body(secs[k].words, list);
    if k == secs.len() - 1 {
        assert(secs.drop_last() =~= secs.take(k));
        assert(out == spec_sections_out(secs.take(k), list) + spec_section_block(secs[k], list));
    } else {
        lemma_compose_section_order(secs.drop_last(), list, k);
        assert(secs.drop_last().take(k) =~= secs.take(k));
        assert(secs.drop_last()[k] == secs[k]);
        assert(out == spec_sections_out(secs.drop_last(), list) + spec_section_block(
            secs.last(),
            list,
        ));
    }
}

/// Round-trip ordering at the document level: in the composed
/// output, section `k`'s header line stands exactly where the blocks
/// of the sections declared before it end, and the lines its selector
/// claims follow it directly — so header order equals declaration
/// order.
pub proof fn lemma_compose_preserves_section_order(
    ly: Lyrics,
    list: Seq<(usize, String)>,
    k: int,
)
    requires
        0 <= k < ly.sections@.len(),
    ensures
        ({
            let out = spec_compose(ly, list);
            let start = spec_prefix(ly).len() + spec_sections_out(
                ly.sections@.take(k),
                list,
            ).len() as int;
            let body = spec_section_body(ly.sections@[k].words, list);
            &&& start + body.len() < out.len()
            &&& out[start] == spec_header_line(ly.sections@[k])
            &&& forall|j: int| 0 <= j < body.len() ==> out[start + 1 + j] == body[j]
        }),
{
    lemma_compose_section_order(ly.sections@, list, k);
}

/// A section whose selector claims no line still appears: its block
/// is exactly its header line, and nothing else.
pub proof fn lemma_empty_match_keeps_header(sec: LyricSection, list: Seq<(usize, String)>)
    requires
        forall|k: int|
            0 <= k < list.len() ==> !spec_sel_matches(sec.words, (#[trigger] list[k]).0 as nat),
    ensures
        spec_section_block(sec, list) =~= seq![spec_header_line(sec)],
    decreases list.len(),
{
    if list.len() > 0 {
        assert(forall|k: int|
            0 <= k < list.drop_last().len() ==> !spec_sel_matches(
                sec.words,
                (#[trigger] list.drop_last()[k]).0 as nat,
            ));
        lemma_empty_match_keeps_header(sec, list.drop_last());
    }
}

/// A range selector whose low bound exceeds its high bound claims no
/// index at all.
pub proof fn lemma_inverted_range_matches_nothing(lo: u32, hi: u32, i: nat)
    requires
        lo > hi,
    ensures
        !spec_sel_matches(RangeOrNumber::Range(lo, hi), i),
{
}

} // verus!
