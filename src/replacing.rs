//! Rendering of matches into text edits. A match's template is expanded with the
//! text that each placeholder captured, after the matches found inside that text
//! have been applied to it. All text here is UTF-8 bytes and all ranges are byte
//! offsets.
use crate::parsing::{bytes_of, PatternElement, SsrTemplate};
use vstd::prelude::*;

verus! {

/// The bytes `[start, end)` of a text.
#[derive(Clone, Copy, Debug, PartialEq, Eq, Structural)]
pub struct TextRange {
    pub start: usize,
    pub end: usize,
}

/// One replacement: the bytes of `range` give way to `insert`.
#[derive(Clone, Debug)]
pub struct Indel {
    pub range: TextRange,
    pub insert: Vec<u8>,
}

/// Replacements over one text, in order and without overlap.
#[derive(Clone, Debug)]
pub struct TextEdit {
    pub indels: Vec<Indel>,
}

/// What a placeholder captured in a match.
#[derive(Debug)]
pub struct PlaceholderValue {
    /// Where the captured text lies in the searched source.
    pub range: TextRange,
    /// The text of the syntax node bound to the placeholder, if it bound one.
    pub node_text: Option<String>,
    /// Matches found inside the captured text, with ranges in the searched source.
    pub inner_matches: SsrMatches,
}

/// One occurrence of a rule's pattern, with its bindings.
#[derive(Debug)]
pub struct Match {
    /// Where the matched text lies in the searched source.
    pub range: TextRange,
    /// The matched text.
    pub matched_text: String,
    /// The template to render in its place.
    pub template: SsrTemplate,
    /// The value of each placeholder, by name; the first entry of a name counts.
    pub placeholder_values: Vec<(String, PlaceholderValue)>,
    /// Comments that matching stepped over; they are kept after the replacement.
    pub ignored_comments: Vec<String>,
}

/// The matches found at one level of nesting, in source order.
#[derive(Debug)]
pub struct SsrMatches {
    pub matches: Vec<Match>,
}

/// A replacement as plain values: start, end, inserted bytes.
pub type EditView = (int, int, Seq<u8>);

pub open spec fn indels_view(s: Seq<Indel>) -> Seq<EditView> {
    s.map_values(|x: Indel| (x.range.start as int, x.range.end as int, x.insert@))
}

pub open spec fn edit_view(e: TextEdit) -> Seq<EditView> {
    indels_view(e.indels@)
}

/// The end of the last replacement, or 0 when there is none.
pub open spec fn end_of(es: Seq<EditView>) -> int {
    if es.len() == 0 {
        0
    } else {
        es.last().1
    }
}

/// Replacements that lie inside a text of `len` bytes, in order, without overlap.
pub open spec fn edits_fit(es: Seq<EditView>, len: int) -> bool {
    &&& forall|i: int| 0 <= i < es.len() ==> 0 <= #[trigger] es[i].0 <= es[i].1 <= len
    &&& forall|i: int| 0 <= i < es.len() - 1 ==> #[trigger] es[i].1 <= es[i + 1].0
}

/// The text up to the end of the last replacement, with the replacements made.
pub open spec fn applied_prefix(text: Seq<u8>, es: Seq<EditView>) -> Seq<u8>
    decreases es.len(),
{
    if es.len() == 0 {
        seq![]
    } else {
        applied_prefix(text, es.drop_last()) + text.subrange(end_of(es.drop_last()), es.last().0)
            + es.last().2
    }
}

/// `text` with the replacements `es` made.
pub open spec fn apply(text: Seq<u8>, es: Seq<EditView>) -> Seq<u8> {
    applied_prefix(text, es) + text.subrange(end_of(es), text.len() as int)
}

/// The value bound to `name`: that of the first entry with this name.
pub open spec fn lookup(pvs: Seq<(String, PlaceholderValue)>, name: Seq<char>) -> Option<
    PlaceholderValue,
>
    decreases pvs.len(),
{
    if pvs.len() == 0 {
        None
    } else if pvs[0].0@ == name {
        Some(pvs[0].1)
    } else {
        lookup(pvs.drop_first(), name)
    }
}

/// The text that a placeholder captured in a match: the bound node's text, or the
/// bytes of the matched text that its range covers.
pub open spec fn captured(m: Match, pv: PlaceholderValue) -> Seq<u8> {
    match pv.node_text {
        Some(t) => bytes_of(t@),
        None => bytes_of(m.matched_text@).subrange(
            pv.range.start - m.range.start,
            pv.range.end - m.range.start,
        ),
    }
}

/// The bytes of the comments, one after the other.
pub open spec fn comments_text(cs: Seq<String>) -> Seq<u8>
    decreases cs.len(),
{
    if cs.len() == 0 {
        seq![]
    } else {
        comments_text(cs.drop_last()) + bytes_of(cs.last()@)
    }
}

/// The rendering of a match, looking at most `d` levels of nested matches deep:
/// its template expanded, then the comments it stepped over.
pub open spec fn render(m: Match, d: nat) -> Seq<u8>
    decreases d, 2nat, 0nat,
{
    rendered_elements(m, m.template.tokens@, d) + comments_text(m.ignored_comments@)
}

pub open spec fn rendered_elements(m: Match, es: Seq<PatternElement>, d: nat) -> Seq<u8>
    decreases d, 1nat, es.len(),
{
    if es.len() == 0 {
        seq![]
    } else {
        rendered_elements(m, es.drop_last(), d) + rendered_element(m, es.last(), d)
    }
}

/// A token stands for its text; a placeholder for its captured text, with the
/// matches inside it applied.
pub open spec fn rendered_element(m: Match, e: PatternElement, d: nat) -> Seq<u8>
    decreases d, 0nat, 0nat,
{
    match e {
        PatternElement::Token(t) => bytes_of(t.text@),
        PatternElement::Placeholder(p) => match lookup(m.placeholder_values@, p.ident@) {
            Some(pv) => if d == 0 {
                seq![]
            } else {
                apply(
                    captured(m, pv),
                    edits(pv.inner_matches.matches@, pv.range.start as int, (d - 1) as nat),
                )
            },
            None => seq![],
        },
    }
}

/// The replacements for matches `ms`, with ranges shifted back by `rel`.
pub open spec fn edits(ms: Seq<Match>, rel: int, d: nat) -> Seq<EditView>
    decreases d, 3nat, ms.len(),
{
    if ms.len() == 0 {
        seq![]
    } else {
        edits(ms.drop_last(), rel, d).push(
            (ms.last().range.start - rel, ms.last().range.end - rel, render(ms.last(), d)),
        )
    }
}

/// Matches that start at or after `rel`, each with a range that does not run
/// backwards, in order without overlap, each well formed.
pub open spec fn wf_matches(ms: Seq<Match>, rel: int, d: nat) -> bool
    decreases d, 1nat, 0nat,
{
    &&& forall|i: int| 0 <= i < ms.len() ==> rel <= #[trigger] ms[i].range.start
    &&& forall|i: int| 0 <= i < ms.len() ==> #[trigger] ms[i].range.start <= ms[i].range.end
    &&& forall|i: int| 0 <= i < ms.len() - 1 ==> #[trigger] ms[i].range.end <= ms[i + 1].range.start
    &&& forall|i: int| 0 <= i < ms.len() ==> wf_match(#[trigger] ms[i], d)
}

/// Matches that end within `len` bytes of `rel`.
pub open spec fn within(ms: Seq<Match>, rel: int, len: int) -> bool {
    forall|i: int| 0 <= i < ms.len() ==> #[trigger] ms[i].range.end <= rel + len
}

/// A placeholder value fit to render in `m`: unless a node gives the text, a
/// captured range inside the match and inside its matched text; and nested matches
/// inside the captured text that are well formed `d` levels deep.
pub open spec fn wf_value(m: Match, pv: PlaceholderValue, d: nat) -> bool
    decreases d, 2nat, 0nat,
{
    &&& pv.range.start <= pv.range.end
    &&& pv.node_text is None ==> m.range.start <= pv.range.start && pv.range.end <= m.range.end
        && pv.range.end - m.range.start <= bytes_of(m.matched_text@).len()
    &&& within(pv.inner_matches.matches@, pv.range.start as int, captured(m, pv).len() as int)
    &&& wf_matches(pv.inner_matches.matches@, pv.range.start as int, d)
}

/// A match fit to render with `d` levels of nesting below it: every placeholder of
/// its template is bound to a fit value.
pub open spec fn wf_match(m: Match, d: nat) -> bool
    decreases d, 0nat, 0nat,
{
    forall|k: int|
        0 <= k < m.template.tokens@.len() ==> match #[trigger] m.template.tokens@[k] {
            PatternElement::Token(_) => true,
            PatternElement::Placeholder(p) => match lookup(m.placeholder_values@, p.ident@) {
                Some(pv) => d > 0 && wf_value(m, pv, (d - 1) as nat),
                None => false,
            },
        }
}

proof fn lemma_edits_shape(ms: Seq<Match>, rel: int, d: nat)
    ensures
        edits(ms, rel, d).len() == ms.len(),
        forall|i: int|
            0 <= i < ms.len() ==> #[trigger] edits(ms, rel, d)[i] == (
                ms[i].range.start - rel,
                ms[i].range.end - rel,
                render(ms[i], d),
            ),
    decreases ms.len(),
{
    if ms.len() > 0 {
        lemma_edits_shape(ms.drop_last(), rel, d);
    }
}

/// Replacements made from well formed matches that lie inside a text fit that text.
proof fn lemma_edits_fit(ms: Seq<Match>, rel: int, len: int, d: nat)
    requires
        wf_matches(ms, rel, d),
        within(ms, rel, len),
    ensures
        edits_fit(edits(ms, rel, d), len),
{
    lemma_edits_shape(ms, rel, d);
    let es = edits(ms, rel, d);
    assert forall|i: int| 0 <= i < es.len() implies 0 <= #[trigger] es[i].0 <= es[i].1 <= len by {
        assert(wf_match(ms[i], d));
    }
    assert forall|i: int| 0 <= i < es.len() - 1 implies #[trigger] es[i].1 <= es[i + 1].0 by {
        assert(ms[i].range.end <= ms[i + 1].range.start);
    }
}

/// Appends the bytes `src[from..to]` to `out`.
fn push_range(out: &mut Vec<u8>, src: &[u8], from: usize, to: usize)
    requires
        from <= to <= src@.len(),
    ensures
        final(out)@ == old(out)@ + src@.subrange(from as int, to as int),
{
    let mut i = from;
    while i < to
        invariant
            from <= i <= to <= src@.len(),
            out@ == old(out)@ + src@.subrange(from as int, i as int),
        decreases to - i,
    {
        out.push(src[i]);
        i = i + 1;
        assert(out@ =~= old(out)@ + src@.subrange(from as int, i as int));
    }
}

/// The index of the first value bound to `name`.
fn find_value(pvs: &Vec<(String, PlaceholderValue)>, name: &String) -> (r: Option<usize>)
    ensures
        r is None <==> lookup(pvs@, name@) is None,
        r matches Some(i) ==> i < pvs@.len() && lookup(pvs@, name@) == Some(pvs@[i as int].1),
{
    let mut i: usize = 0;
    assert(pvs@.skip(0) =~= pvs@);
    while i < pvs.len()
        invariant
            i <= pvs@.len(),
            lookup(pvs@, name@) == lookup(pvs@.skip(i as int), name@),
        decreases pvs@.len() - i,
    {
        assert(pvs@.skip(i as int)[0] == pvs@[i as int]);
        if pvs[i].0 == *name {
            return Some(i);
        }
        assert(pvs@.skip(i as int).drop_first() =~= pvs@.skip(i + 1));
        i = i + 1;
    }
    None
}

/// Applies an edit to a text.
pub fn apply_edit(text: &Vec<u8>, edit: &TextEdit) -> (r: Vec<u8>)
    requires
        edits_fit(edit_view(*edit), text@.len() as int),
    ensures
        r@ == apply(text@, edit_view(*edit)),
{
    let ghost es = edit_view(*edit);
    let mut out: Vec<u8> = Vec::new();
    let mut pos: usize = 0;
    let mut i: usize = 0;
    while i < edit.indels.len()
        invariant
            es == edit_view(*edit),
            edits_fit(es, text@.len() as int),
            i <= es.len(),
            out@ == applied_prefix(text@, es.subrange(0, i as int)),
            pos == end_of(es.subrange(0, i as int)),
            pos <= text@.len(),
            i > 0 ==> pos == es[i - 1].1,
        decreases es.len() - i,
    {
        let ind = &edit.indels[i];
        assert(es[i as int] == (ind.range.start as int, ind.range.end as int, ind.insert@));
        assert(es.subrange(0, i + 1).drop_last() =~= es.subrange(0, i as int));
        assert(0 <= es[i as int].0 <= es[i as int].1 <= text@.len());
        if i > 0 {
            assert(es[i - 1].1 <= es[i as int].0);
        }
        push_range(&mut out, text.as_slice(), pos, ind.range.start);
        push_range(&mut out, ind.insert.as_slice(), 0, ind.insert.len());
        assert(ind.insert@.subrange(0, ind.insert@.len() as int) =~= ind.insert@);
        pos = ind.range.end;
        i = i + 1;
    }
    assert(es.subrange(0, i as int) =~= es);
    push_range(&mut out, text.as_slice(), pos, text.len());
    out
}

/// The replacements for `matches`, with ranges shifted back by `relative_start`.
fn matches_to_edit_at_offset(matches: &SsrMatches, relative_start: usize, Ghost(d): Ghost<nat>) -> (r: TextEdit)
    requires
        wf_matches(matches.matches@, relative_start as int, d),
    ensures
        edit_view(r) == edits(matches.matches@, relative_start as int, d),
    decreases d, 3nat,
{
    let ghost ms = matches.matches@;
    let mut indels: Vec<Indel> = Vec::new();
    let mut i: usize = 0;
    while i < matches.matches.len()
        invariant
            ms == matches.matches@,
            wf_matches(ms, relative_start as int, d),
            i <= ms.len(),
            indels_view(indels@) == edits(ms.subrange(0, i as int), relative_start as int, d),
        decreases ms.len() - i,
    {
        let m = &matches.matches[i];
        assert(wf_match(ms[i as int], d));
        let insert = render_replace_at(m, Ghost(d));
        let indel = Indel {
            range: TextRange { start: m.range.start - relative_start, end: m.range.end - relative_start },
            insert,
        };
        let ghost before = indels@;
        indels.push(indel);
        assert(indels_view(indels@) =~= indels_view(before).push(
            (m.range.start - relative_start, m.range.end - relative_start, render(*m, d)),
        ));
        assert(ms.subrange(0, i + 1).drop_last() =~= ms.subrange(0, i as int));
        i = i + 1;
    }
    assert(ms.subrange(0, i as int) =~= ms);
    TextEdit { indels }
}

/// The text of a match's template with its placeholders filled in, followed by
/// the comments it stepped over.
fn render_replace_at(match_info: &Match, Ghost(d): Ghost<nat>) -> (r: Vec<u8>)
    requires
        wf_match(*match_info, d),
    ensures
        r@ == render(*match_info, d),
    decreases d, 2nat,
{
    let ghost m = *match_info;
    let ghost es = m.template.tokens@;
    let mut out: Vec<u8> = Vec::new();
    let matched = match_info.matched_text.as_str().as_bytes();
    let mut k: usize = 0;
    while k < match_info.template.tokens.len()
        invariant
            m == *match_info,
            es == m.template.tokens@,
            wf_match(m, d),
            matched@ == bytes_of(m.matched_text@),
            k <= es.len(),
            out@ == rendered_elements(m, es.subrange(0, k as int), d),
        decreases es.len() - k,
    {
        assert(es.subrange(0, k + 1).drop_last() =~= es.subrange(0, k as int));
        match &match_info.template.tokens[k] {
            PatternElement::Token(t) => {
                let b = t.text.as_str().as_bytes();
                push_range(&mut out, b, 0, b.len());
                assert(b@.subrange(0, b@.len() as int) =~= b@);
                assert(rendered_element(m, es[k as int], d) == b@);
            },
            PatternElement::Placeholder(p) => {
                assert(match es[k as int] {
                    PatternElement::Token(_) => true,
                    PatternElement::Placeholder(p) => match lookup(m.placeholder_values@, p.ident@) {
                        Some(pv) => d > 0 && wf_value(m, pv, (d - 1) as nat),
                        None => false,
                    },
                });
                let idx = find_value(&match_info.placeholder_values, &p.ident);
                let idx = match idx {
                    Some(idx) => idx,
                    None => { return out; },
                };
                let pv = &match_info.placeholder_values[idx].1;
                let mut text: Vec<u8> = Vec::new();
                match &pv.node_text {
                    Some(t) => {
                        let b = t.as_str().as_bytes();
                        push_range(&mut text, b, 0, b.len());
                        assert(b@.subrange(0, b@.len() as int) =~= b@);
                    },
                    None => {
                        push_range(
                            &mut text,
                            matched,
                            pv.range.start - match_info.range.start,
                            pv.range.end - match_info.range.start,
                        );
                    },
                }
                assert(text@ == captured(m, *pv));
                let inner = matches_to_edit_at_offset(&pv.inner_matches, pv.range.start, Ghost((d - 1) as nat));
                proof {
                    lemma_edits_fit(pv.inner_matches.matches@, pv.range.start as int, text@.len() as int, (d - 1) as nat);
                }
                let spliced = apply_edit(&text, &inner);
                push_range(&mut out, spliced.as_slice(), 0, spliced.len());
                assert(spliced@.subrange(0, spliced@.len() as int) =~= spliced@);
                assert(rendered_element(m, es[k as int], d) == spliced@);
            },
        }
        k = k + 1;
    }
    assert(es.subrange(0, k as int) =~= es);
    let ghost cs = m.ignored_comments@;
    let mut j: usize = 0;
    while j < match_info.ignored_comments.len()
        invariant
            m == *match_info,
            cs == m.ignored_comments@,
            j <= cs.len(),
            out@ == rendered_elements(m, es, d) + comments_text(cs.subrange(0, j as int)),
        decreases cs.len() - j,
    {
        assert(cs.subrange(0, j + 1).drop_last() =~= cs.subrange(0, j as int));
        let b = match_info.ignored_comments[j].as_str().as_bytes();
        push_range(&mut out, b, 0, b.len());
        assert(b@.subrange(0, b@.len() as int) =~= b@);
        j = j + 1;
    }
    assert(cs.subrange(0, j as int) =~= cs);
    out
}

proof fn lemma_matches_stable(ms: Seq<Match>, rel: int, d1: nat, d2: nat)
    requires
        wf_matches(ms, rel, d1),
        d1 <= d2,
    ensures
        wf_matches(ms, rel, d2),
        edits(ms, rel, d1) == edits(ms, rel, d2),
    decreases d1, 3nat, ms.len(),
{
    assert forall|i: int| 0 <= i < ms.len() implies wf_match(#[trigger] ms[i], d2) by {
        lemma_match_stable(ms[i], d1, d2);
    }
    if ms.len() > 0 {
        let init = ms.drop_last();
        assert forall|i: int| 0 <= i < init.len() implies wf_match(#[trigger] init[i], d1) by {
            assert(init[i] == ms[i]);
        }
        assert forall|i: int| 0 <= i < init.len() - 1 implies #[trigger] init[i].range.end <= init[i + 1].range.start by {
            assert(init[i] == ms[i] && init[i + 1] == ms[i + 1]);
        }
        assert forall|i: int| 0 <= i < init.len() implies rel <= #[trigger] init[i].range.start by {
            assert(init[i] == ms[i]);
        }
        assert forall|i: int| 0 <= i < init.len() implies #[trigger] init[i].range.start <= init[i].range.end by {
            assert(init[i] == ms[i]);
        }
        lemma_matches_stable(init, rel, d1, d2);
        lemma_match_stable(ms.last(), d1, d2);
    }
}

proof fn lemma_elements_stable(m: Match, es: Seq<PatternElement>, d1: nat, d2: nat)
    requires
        wf_match(m, d1),
        d1 <= d2,
        es.len() <= m.template.tokens@.len(),
        forall|j: int| 0 <= j < es.len() ==> #[trigger] es[j] == m.template.tokens@[j],
    ensures
        rendered_elements(m, es, d1) == rendered_elements(m, es, d2),
    decreases d1, 1nat, es.len(),
{
    if es.len() > 0 {
        let init = es.drop_last();
        assert forall|j: int| 0 <= j < init.len() implies #[trigger] init[j] == m.template.tokens@[j] by {
            assert(init[j] == es[j]);
        }
        lemma_elements_stable(m, init, d1, d2);
        let k = es.len() - 1;
        assert(es.last() == m.template.tokens@[k]);
        if let PatternElement::Placeholder(p) = es.last() {
            let pv = lookup(m.placeholder_values@, p.ident@)->Some_0;
            assert(wf_value(m, pv, (d1 - 1) as nat));
            assert(d1 > 0);
            lemma_matches_stable(pv.inner_matches.matches@, pv.range.start as int, (d1 - 1) as nat, (d2 - 1) as nat);
        }
        assert(rendered_element(m, es.last(), d1) == rendered_element(m, es.last(), d2));
    }
}

proof fn lemma_match_stable(m: Match, d1: nat, d2: nat)
    requires
        wf_match(m, d1),
        d1 <= d2,
    ensures
        wf_match(m, d2),
        render(m, d1) == render(m, d2),
    decreases d1, 2nat, 0nat,
{
    let ts = m.template.tokens@;
    assert forall|k: int| 0 <= k < ts.len() implies match #[trigger] ts[k] {
        PatternElement::Token(_) => true,
        PatternElement::Placeholder(p) => match lookup(m.placeholder_values@, p.ident@) {
            Some(pv) => d2 > 0 && wf_value(m, pv, (d2 - 1) as nat),
            None => false,
        },
    } by {
        if let PatternElement::Placeholder(p) = ts[k] {
            let pv = lookup(m.placeholder_values@, p.ident@)->Some_0;
            assert(wf_value(m, pv, (d1 - 1) as nat));
            lemma_matches_stable(pv.inner_matches.matches@, pv.range.start as int, (d1 - 1) as nat, (d2 - 1) as nat);
        }
    }
    lemma_elements_stable(m, ts, d1, d2);
}

/// Returns the edit that replaces each match with its rendered template, in the
/// coordinates of the searched source.
pub fn matches_to_edit(matches: &SsrMatches) -> (r: TextEdit)
    requires
        exists|d: nat| wf_matches(matches.matches@, 0, d),
    ensures
        forall|d: nat| wf_matches(matches.matches@, 0, d) ==> edit_view(r) == edits(matches.matches@, 0, d),
{
    let ghost d0 = choose|d: nat| wf_matches(matches.matches@, 0, d);
    let r = matches_to_edit_at_offset(matches, 0, Ghost(d0));
    proof {
        assert forall|d: nat| wf_matches(matches.matches@, 0, d) implies edit_view(r) == edits(matches.matches@, 0, d) by {
            if d0 <= d {
                lemma_matches_stable(matches.matches@, 0, d0, d);
            } else {
                lemma_matches_stable(matches.matches@, 0, d, d0);
            }
        }
    }
    r
}

/// Returns the rendered replacement for one match.
pub fn render_replace(match_info: &Match) -> (r: Vec<u8>)
    requires
        exists|d: nat| wf_match(*match_info, d),
    ensures
        forall|d: nat| wf_match(*match_info, d) ==> r@ == render(*match_info, d),
{
    let ghost d0 = choose|d: nat| wf_match(*match_info, d);
    let r = render_replace_at(match_info, Ghost(d0));
    proof {
        assert forall|d: nat| wf_match(*match_info, d) implies r@ == render(*match_info, d) by {
            if d0 <= d {
                lemma_match_stable(*match_info, d0, d);
            } else {
                lemma_match_stable(*match_info, d, d0);
            }
        }
    }
    r
}

/// The condition that a well formed match puts on one element of its template.
pub open spec fn element_fit(m: Match, e: PatternElement, d: nat) -> bool {
    match e {
        PatternElement::Token(_) => true,
        PatternElement::Placeholder(p) => match lookup(m.placeholder_values@, p.ident@) {
            Some(pv) => d > 0 && wf_value(m, pv, (d - 1) as nat),
            None => false,
        },
    }
}

/// Whether `matches` are well formed `depth` levels deep, starting at or after
/// `relative_start` and, if `len` is given, ending within `len` bytes of it.
fn check_matches(matches: &SsrMatches, relative_start: usize, len: Option<usize>, depth: usize) -> (r: bool)
    ensures
        r <==> wf_matches(matches.matches@, relative_start as int, depth as nat) && (len matches Some(l)
            ==> within(matches.matches@, relative_start as int, l as int)),
    decreases depth, 1nat,
{
    let ghost ms = matches.matches@;
    let mut i: usize = 0;
    while i < matches.matches.len()
        invariant
            ms == matches.matches@,
            i <= ms.len(),
            forall|j: int| 0 <= j < i ==> relative_start <= #[trigger] ms[j].range.start,
            forall|j: int| 0 <= j < i ==> #[trigger] ms[j].range.start <= ms[j].range.end,
            forall|j: int| 0 <= j < i ==> wf_match(#[trigger] ms[j], depth as nat),
            forall|j: int| 0 <= j < i - 1 ==> #[trigger] ms[j].range.end <= ms[j + 1].range.start,
            len matches Some(l) ==> forall|j: int| 0 <= j < i ==> #[trigger] ms[j].range.end <= relative_start + l,
        decreases ms.len() - i,
    {
        let m = &matches.matches[i];
        if m.range.start < relative_start || m.range.start > m.range.end {
            return false;
        }
        if i > 0 && matches.matches[i - 1].range.end > m.range.start {
            return false;
        }
        if !check_match(m, depth) {
            return false;
        }
        if let Some(l) = len {
            if m.range.end - relative_start > l {
                assert(!within(ms, relative_start as int, l as int));
                return false;
            }
        }
        i = i + 1;
    }
    true
}

/// Whether `m` is well formed with `depth` levels of nesting below it.
fn check_match(m: &Match, depth: usize) -> (r: bool)
    ensures
        r <==> wf_match(*m, depth as nat),
    decreases depth, 0nat,
{
    let matched_len = m.matched_text.as_str().as_bytes().len();
    let ghost ts = m.template.tokens@;
    let mut k: usize = 0;
    while k < m.template.tokens.len()
        invariant
            ts == m.template.tokens@,
            k <= ts.len(),
            matched_len == bytes_of(m.matched_text@).len(),
            forall|j: int| 0 <= j < k ==> element_fit(*m, #[trigger] ts[j], depth as nat),
        decreases ts.len() - k,
    {
        if let PatternElement::Placeholder(p) = &m.template.tokens[k] {
            let idx = match find_value(&m.placeholder_values, &p.ident) {
                Some(idx) => idx,
                None => { return false; },
            };
            let pv = &m.placeholder_values[idx].1;
            if depth == 0 || pv.range.start > pv.range.end {
                return false;
            }
            let captured_len = match &pv.node_text {
                Some(t) => t.as_str().as_bytes().len(),
                None => {
                    if pv.range.start < m.range.start || pv.range.end > m.range.end
                        || pv.range.end - m.range.start > matched_len {
                        return false;
                    }
                    pv.range.end - pv.range.start
                },
            };
            assert(captured_len == captured(*m, *pv).len());
            if !check_matches(&pv.inner_matches, pv.range.start, Some(captured_len), depth - 1) {
                return false;
            }
        }
        k = k + 1;
    }
    assert forall|j: int| 0 <= j < ts.len() implies match #[trigger] ts[j] {
        PatternElement::Token(_) => true,
        PatternElement::Placeholder(p) => match lookup(m.placeholder_values@, p.ident@) {
            Some(pv) => depth > 0 && wf_value(*m, pv, (depth - 1) as nat),
            None => false,
        },
    } by {
        assert(element_fit(*m, ts[j], depth as nat));
    }
    true
}

/// Returns the edit for `matches` when they are well formed with at most
/// `max_depth` levels of nesting, and `None` when they are not: when ranges overlap
/// or leave their frame, or a template names an unbound placeholder.
pub fn try_matches_to_edit(matches: &SsrMatches, max_depth: usize) -> (r: Option<TextEdit>)
    ensures
        r is Some <==> wf_matches(matches.matches@, 0, max_depth as nat),
        r matches Some(e) ==> edit_view(e) == edits(matches.matches@, 0, max_depth as nat),
{
    if check_matches(matches, 0, None, max_depth) {
        Some(matches_to_edit_at_offset(matches, 0, Ghost(max_depth as nat)))
    } else {
        None
    }
}

/// The text of the tokens among `es`, one after the other.
pub open spec fn literal_text(es: Seq<PatternElement>) -> Seq<u8>
    decreases es.len(),
{
    if es.len() == 0 {
        seq![]
    } else {
        literal_text(es.drop_last()) + match es.last() {
            PatternElement::Token(t) => bytes_of(t.text@),
            PatternElement::Placeholder(_) => seq![],
        }
    }
}

proof fn lemma_literal_elements(m: Match, es: Seq<PatternElement>, d: nat)
    requires
        forall|k: int| 0 <= k < es.len() ==> #[trigger] es[k] is Token,
    ensures
        rendered_elements(m, es, d) == literal_text(es),
    decreases es.len(),
{
    if es.len() > 0 {
        assert forall|k: int| 0 <= k < es.drop_last().len() implies #[trigger] es.drop_last()[k] is Token by {
            assert(es[k] is Token);
        }
        lemma_literal_elements(m, es.drop_last(), d);
        assert(es[es.len() - 1] is Token);
        let t = es.last()->Token_0;
        assert(rendered_element(m, es.last(), d) == bytes_of(t.text@));
    }
}

/// A match whose template has no placeholders is always fit to render, and renders
/// as the template's own text followed by the comments that matching stepped over,
/// whatever the placeholders are bound to.
pub proof fn lemma_literal_template(m: Match, d: nat)
    requires
        forall|k: int|
            0 <= k < m.template.tokens@.len() ==> #[trigger] m.template.tokens@[k] is Token,
    ensures
        wf_match(m, d),
        render(m, d) == literal_text(m.template.tokens@) + comments_text(m.ignored_comments@),
{
    lemma_literal_elements(m, m.template.tokens@, d);
    assert forall|k: int| 0 <= k < m.template.tokens@.len() implies element_fit(m, #[trigger] m.template.tokens@[k], d) by {
        assert(m.template.tokens@[k] is Token);
    }
}

/// When a template is one placeholder whose captured text holds one nested match,
/// the rendering is the captured text with that match's rendering put in at its
/// offset inside the captured text, once.
pub proof fn lemma_nested_match(m: Match, d: nat)
    requires
        wf_match(m, d),
        m.template.tokens@.len() == 1,
        m.template.tokens@[0] is Placeholder,
        m.ignored_comments@.len() == 0,
        lookup(m.placeholder_values@, m.template.tokens@[0]->Placeholder_0.ident@) matches Some(
            pv,
        ) && pv.inner_matches.matches@.len() == 1,
    ensures
        ({
            let pv = lookup(m.placeholder_values@, m.template.tokens@[0]->Placeholder_0.ident@)->Some_0;
            let inner = pv.inner_matches.matches@[0];
            let t = captured(m, pv);
            render(m, d) == t.subrange(0, inner.range.start - pv.range.start) + render(
                inner,
                (d - 1) as nat,
            ) + t.subrange(inner.range.end - pv.range.start, t.len() as int)
        }),
{
    let es = m.template.tokens@;
    let pv = lookup(m.placeholder_values@, es[0]->Placeholder_0.ident@)->Some_0;
    let ms = pv.inner_matches.matches@;
    let t = captured(m, pv);
    assert(es.drop_last() =~= Seq::<PatternElement>::empty());
    assert(d > 0);
    let ed = edits(ms, pv.range.start as int, (d - 1) as nat);
    lemma_edits_shape(ms, pv.range.start as int, (d - 1) as nat);
    assert(ed.drop_last() =~= Seq::<EditView>::empty());
    assert(comments_text(m.ignored_comments@) =~= Seq::<u8>::empty());
    assert(rendered_elements(m, es.drop_last(), d) == Seq::<u8>::empty());
    assert(rendered_elements(m, es, d) =~= rendered_element(m, es[0], d));
    assert(render(m, d) =~= apply(t, ed));
    assert(applied_prefix(t, ed.drop_last()) == Seq::<u8>::empty());
    assert(end_of(ed.drop_last()) == 0);
    assert(ed.last() == ed[0]);
    assert(applied_prefix(t, ed) =~= t.subrange(0, ed[0].0) + ed[0].2);
}

} // verus!
