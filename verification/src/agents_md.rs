//! Document model.
//!
//! A document is an ordered sequence of segments: free text kept byte for
//! byte, and named sections delimited by single-line start and end markers.
//! Parsing is a two-state scan over lines; rendering concatenates the
//! segments back and reproduces an unmutated document exactly.

use vstd::prelude::*;
use vstd::seq_lib::lemma_flatten_concat;

use crate::error::AgentError;
use crate::text::concat_strings;
use crate::text::concat_texts;
use crate::text::is_line;
use crate::text::is_terminated;
use crate::text::lemma_lines_roundtrip;
use crate::text::lemma_lines_shape;
use crate::text::lines_of;
use crate::text::matches_at;
use crate::text::range_matches;
use crate::text::split_lines;
use crate::text::views_of;

verus! {

// ---------------------------------------------------------------------------
// Marker lines
// ---------------------------------------------------------------------------
/// Text that opens a start marker line.
pub open spec fn start_prefix() -> Seq<char> {
    "<!-- prime-agent(Start "@
}

/// Text that opens an end marker line.
pub open spec fn end_prefix() -> Seq<char> {
    "<!-- prime-agent(End "@
}

/// Text that closes either marker line.
pub open spec fn marker_suffix() -> Seq<char> {
    ") -->"@
}

/// Text that opens a section's conventional heading line.
pub open spec fn heading_prefix() -> Seq<char> {
    "## "@
}

/// The line without its trailing newline, if it carries one.
pub open spec fn line_sans_nl(l: Seq<char>) -> Seq<char> {
    if l.len() > 0 && l.last() == '\n' {
        l.drop_last()
    } else {
        l
    }
}

/// True when `b` is `pre`, then a name, then the marker suffix.
pub open spec fn has_wrap(b: Seq<char>, pre: Seq<char>) -> bool {
    &&& b.len() >= pre.len() + marker_suffix().len()
    &&& b.subrange(0, pre.len() as int) == pre
    &&& b.subrange(b.len() - marker_suffix().len(), b.len() as int) == marker_suffix()
}

/// The name wrapped between `pre` and the marker suffix.
pub open spec fn wrap_name(b: Seq<char>, pre: Seq<char>) -> Seq<char> {
    b.subrange(pre.len() as int, b.len() - marker_suffix().len())
}

pub open spec fn is_start_line(l: Seq<char>) -> bool {
    has_wrap(line_sans_nl(l), start_prefix())
}

pub open spec fn start_name_of(l: Seq<char>) -> Seq<char> {
    wrap_name(line_sans_nl(l), start_prefix())
}

pub open spec fn is_end_line(l: Seq<char>) -> bool {
    has_wrap(line_sans_nl(l), end_prefix())
}

pub open spec fn end_name_of(l: Seq<char>) -> Seq<char> {
    wrap_name(line_sans_nl(l), end_prefix())
}

/// The full start marker line a rendered section carries.
pub open spec fn start_line_text(name: Seq<char>) -> Seq<char> {
    start_prefix() + name + marker_suffix() + seq!['\n']
}

/// The full end marker line; the final line of a document may lack the newline.
pub open spec fn end_line_text(name: Seq<char>, nl: bool) -> Seq<char> {
    end_prefix() + name + marker_suffix() + if nl {
        seq!['\n']
    } else {
        Seq::<char>::empty()
    }
}

/// The conventional heading line of a section.
pub open spec fn heading_line_text(name: Seq<char>) -> Seq<char> {
    heading_prefix() + name + seq!['\n']
}

/// No line is both a start and an end marker.
pub proof fn lemma_markers_disjoint(l: Seq<char>)
    ensures
        !(is_start_line(l) && is_end_line(l)),
{
    reveal_strlit("<!-- prime-agent(Start ");
    reveal_strlit("<!-- prime-agent(End ");
    if is_start_line(l) && is_end_line(l) {
        let b = line_sans_nl(l);
        assert(b.subrange(0, start_prefix().len() as int)[17] == b[17]);
        assert(b.subrange(0, end_prefix().len() as int)[17] == b[17]);
        assert(start_prefix()[17] == 'S');
        assert(end_prefix()[17] == 'E');
    }
}

/// A terminated start marker line is exactly the rendered start marker of its name.
pub proof fn lemma_start_line_recompose(l: Seq<char>)
    requires
        is_start_line(l),
        is_terminated(l),
    ensures
        l =~= start_line_text(start_name_of(l)),
{
    let b = line_sans_nl(l);
    assert(b =~= b.subrange(0, start_prefix().len() as int) + wrap_name(b, start_prefix())
        + b.subrange(b.len() - marker_suffix().len(), b.len() as int));
    assert(l =~= b + seq!['\n']);
}

/// An end marker line is exactly the rendered end marker of its name.
pub proof fn lemma_end_line_recompose(l: Seq<char>)
    requires
        is_end_line(l),
        is_line(l),
    ensures
        l =~= end_line_text(end_name_of(l), l.last() == '\n'),
{
    let b = line_sans_nl(l);
    assert(b =~= b.subrange(0, end_prefix().len() as int) + wrap_name(b, end_prefix())
        + b.subrange(b.len() - marker_suffix().len(), b.len() as int));
    if l.last() == '\n' {
        assert(l =~= b + seq!['\n']);
    } else {
        assert(l =~= b);
    }
}

/// The rendered markers of a newline-free name classify back to that name.
pub proof fn lemma_marker_lines_classify(name: Seq<char>)
    requires
        !name.contains('\n'),
    ensures
        is_start_line(start_line_text(name)),
        start_name_of(start_line_text(name)) =~= name,
        is_end_line(end_line_text(name, true)),
        is_end_line(end_line_text(name, false)),
        end_name_of(end_line_text(name, true)) =~= name,
        end_name_of(end_line_text(name, false)) =~= name,
        is_terminated(start_line_text(name)),
        is_terminated(end_line_text(name, true)),
        end_line_text(name, false).len() > 0,
        is_line(end_line_text(name, false)),
{
    reveal_strlit("<!-- prime-agent(Start ");
    reveal_strlit("<!-- prime-agent(End ");
    reveal_strlit(") -->");
    let s = start_line_text(name);
    assert(s.last() == '\n');
    assert(line_sans_nl(s) =~= start_prefix() + name + marker_suffix());
    let b = start_prefix() + name + marker_suffix();
    assert(b.subrange(0, start_prefix().len() as int) =~= start_prefix());
    assert(b.subrange(b.len() - marker_suffix().len(), b.len() as int) =~= marker_suffix());
    assert(wrap_name(b, start_prefix()) =~= name);
    let e1 = end_line_text(name, true);
    assert(e1.last() == '\n');
    assert(line_sans_nl(e1) =~= end_prefix() + name + marker_suffix());
    let c = end_prefix() + name + marker_suffix();
    assert(c.subrange(0, end_prefix().len() as int) =~= end_prefix());
    assert(c.subrange(c.len() - marker_suffix().len(), c.len() as int) =~= marker_suffix());
    assert(wrap_name(c, end_prefix()) =~= name);
    let e0 = end_line_text(name, false);
    assert(e0 =~= c) by {
        assert(c + Seq::<char>::empty() =~= c);
    }
    assert(e0.len() > 0);
    assert(e0.last() == '>');
    assert(line_sans_nl(e0) =~= c);
    assert(is_terminated(s)) by {
        assert(forall|i: int|
            0 <= i < s.len() - 1 ==> s[i] == b[i] && #[trigger] s[i] != '\n') by {
            assert(forall|i: int| 0 <= i < name.len() ==> #[trigger] name[i] != '\n');
        }
    }
    assert(is_terminated(e1)) by {
        assert(forall|i: int|
            0 <= i < e1.len() - 1 ==> e1[i] == c[i] && #[trigger] e1[i] != '\n') by {
            assert(forall|i: int| 0 <= i < name.len() ==> #[trigger] name[i] != '\n');
        }
    }
    assert(is_line(e0)) by {
        assert(forall|i: int| 0 <= i < e0.len() - 1 ==> #[trigger] e0[i] == e1[i]);
    }
}

// ---------------------------------------------------------------------------
// Segments
// ---------------------------------------------------------------------------
/// Mathematical model of one segment.
pub enum SegSpec {
    Free { lines: Seq<Seq<char>> },
    Section { name: Seq<char>, lines: Seq<Seq<char>>, end_nl: bool },
}

/// The text a segment renders to.
pub open spec fn seg_text(seg: SegSpec) -> Seq<char> {
    match seg {
        SegSpec::Free { lines } => concat_texts(lines),
        SegSpec::Section { name, lines, end_nl } => start_line_text(name) + concat_texts(lines)
            + end_line_text(name, end_nl),
    }
}

/// The text a segment list renders to.
pub open spec fn segs_text(segs: Seq<SegSpec>) -> Seq<char>
    decreases segs.len(),
{
    if segs.len() == 0 {
        Seq::empty()
    } else {
        seg_text(segs[0]) + segs_text(segs.drop_first())
    }
}

/// Lines that belong to segment bodies: proper lines that are no markers.
pub open spec fn plain_lines(ls: Seq<Seq<char>>) -> bool {
    forall|i: int|
        0 <= i < ls.len() ==> is_line(#[trigger] ls[i]) && !is_start_line(ls[i]) && !is_end_line(
            ls[i],
        )
}

pub open spec fn all_terminated(ls: Seq<Seq<char>>) -> bool {
    forall|i: int| 0 <= i < ls.len() ==> is_terminated(#[trigger] ls[i])
}

/// Well-formedness of one segment; only the last segment of a document may
/// end without a newline.
pub open spec fn seg_wf(seg: SegSpec, is_last: bool) -> bool {
    match seg {
        SegSpec::Free { lines } => {
            &&& lines.len() > 0
            &&& plain_lines(lines)
            &&& if is_last {
                all_terminated(lines.drop_last())
            } else {
                all_terminated(lines)
            }
        },
        SegSpec::Section { name, lines, end_nl } => {
            &&& plain_lines(lines)
            &&& all_terminated(lines)
            &&& !name.contains('\n')
            &&& (!end_nl ==> is_last)
        },
    }
}

/// Well-formedness of a whole document.
pub open spec fn doc_wf(segs: Seq<SegSpec>) -> bool {
    forall|i: int| 0 <= i < segs.len() ==> seg_wf(#[trigger] segs[i], i == segs.len() - 1)
}

/// A one-segment list renders as that segment.
pub proof fn lemma_segs_text_singleton(s: SegSpec)
    ensures
        segs_text(seq![s]) =~= seg_text(s),
{
    let l = seq![s];
    assert(l.len() == 1);
    assert(l[0] == s);
    assert(l.drop_first() =~= Seq::<SegSpec>::empty());
    assert(segs_text(l.drop_first()) == Seq::<char>::empty());
    assert(segs_text(l) == seg_text(s) + segs_text(l.drop_first()));
    assert(seg_text(s) + Seq::<char>::empty() =~= seg_text(s));
}

/// Rendering distributes over splitting the segment list.
pub proof fn lemma_segs_text_concat(a: Seq<SegSpec>, b: Seq<SegSpec>)
    ensures
        segs_text(a + b) =~= segs_text(a) + segs_text(b),
    decreases a.len(),
{
    if a.len() == 0 {
        assert(a + b =~= b);
    } else {
        lemma_segs_text_concat(a.drop_first(), b);
        assert((a + b).drop_first() =~= a.drop_first() + b);
        assert((a + b)[0] == a[0]);
        assert((a + b).len() > 0);
    }
}

// ---------------------------------------------------------------------------
// Parsing
// ---------------------------------------------------------------------------
/// First position at or after `i` holding a marker line, or the end.
pub open spec fn scan_plain(ls: Seq<Seq<char>>, i: int) -> int
    decreases ls.len() - i when 0 <= i <= ls.len()
{
    if i >= ls.len() {
        ls.len() as int
    } else if is_start_line(ls[i]) || is_end_line(ls[i]) {
        i
    } else {
        scan_plain(ls, i + 1)
    }
}

pub proof fn lemma_scan_plain(ls: Seq<Seq<char>>, i: int)
    requires
        0 <= i <= ls.len(),
    ensures
        i <= scan_plain(ls, i) <= ls.len(),
        scan_plain(ls, i) < ls.len() ==> is_start_line(ls[scan_plain(ls, i)]) || is_end_line(
            ls[scan_plain(ls, i)],
        ),
        forall|x: int|
            i <= x < scan_plain(ls, i) ==> !is_start_line(#[trigger] ls[x]) && !is_end_line(ls[x]),
    decreases ls.len() - i,
{
    if i < ls.len() && !(is_start_line(ls[i]) || is_end_line(ls[i])) {
        lemma_scan_plain(ls, i + 1);
    }
}

/// Parses `ls[i..]` outside any section into segments; `None` on a marker
/// fault: a stray end, a nested start, a name mismatch, an open section.
pub open spec fn parse_from(ls: Seq<Seq<char>>, i: int) -> Option<Seq<SegSpec>>
    decreases ls.len() - i when 0 <= i <= ls.len()
    via parse_from_decreases
{
    if i >= ls.len() {
        Some(Seq::empty())
    } else {
        let j = scan_plain(ls, i);
        let free: Seq<SegSpec> = if i < j {
            seq![SegSpec::Free { lines: ls.subrange(i, j) }]
        } else {
            Seq::empty()
        };
        if j == ls.len() {
            Some(free)
        } else if is_end_line(ls[j]) {
            None
        } else {
            let name = start_name_of(ls[j]);
            let k = scan_plain(ls, j + 1);
            if k == ls.len() {
                None
            } else if is_start_line(ls[k]) {
                None
            } else if end_name_of(ls[k]) != name {
                None
            } else {
                match parse_from(ls, k + 1) {
                    Option::None => None,
                    Option::Some(rest) => Some(
                        free + seq![
                            SegSpec::Section {
                                name,
                                lines: ls.subrange(j + 1, k),
                                end_nl: ls[k].len() > 0 && ls[k].last() == '\n',
                            },
                        ] + rest,
                    ),
                }
            }
        }
    }
}

#[via_fn]
proof fn parse_from_decreases(ls: Seq<Seq<char>>, i: int) {
    if i < ls.len() {
        lemma_scan_plain(ls, i);
        let j = scan_plain(ls, i);
        if j < ls.len() && !is_end_line(ls[j]) {
            lemma_scan_plain(ls, j + 1);
        }
    }
}

/// The whole-text parse: split into lines, then scan.
pub open spec fn parse_text(t: Seq<char>) -> Option<Seq<SegSpec>> {
    parse_from(lines_of(t), 0)
}

/// What parsing accepts it renders back verbatim.
pub proof fn lemma_parse_render(ls: Seq<Seq<char>>, i: int)
    requires
        0 <= i <= ls.len(),
        parse_from(ls, i) is Some,
        forall|x: int| 0 <= x < ls.len() ==> is_line(#[trigger] ls[x]),
        forall|x: int| 0 <= x < ls.len() - 1 ==> is_terminated(#[trigger] ls[x]),
    ensures
        segs_text(parse_from(ls, i)->Some_0) =~= concat_texts(ls.subrange(i, ls.len() as int)),
    decreases ls.len() - i,
{
    if i >= ls.len() {
        assert(ls.subrange(i, ls.len() as int) =~= Seq::<Seq<char>>::empty());
    } else {
        let j = scan_plain(ls, i);
        lemma_scan_plain(ls, i);
        let run = ls.subrange(i, j);
        let free: Seq<SegSpec> = if i < j {
            seq![SegSpec::Free { lines: run }]
        } else {
            Seq::empty()
        };
        assert(segs_text(free) =~= concat_texts(run)) by {
            if i < j {
                lemma_segs_text_singleton(SegSpec::Free { lines: run });
            } else {
                assert(run =~= Seq::<Seq<char>>::empty());
            }
        }
        if j == ls.len() {
            assert(ls.subrange(i, ls.len() as int) =~= run);
        } else {
            assert(is_start_line(ls[j])) by {
                lemma_markers_disjoint(ls[j]);
            }
            let name = start_name_of(ls[j]);
            let k = scan_plain(ls, j + 1);
            lemma_scan_plain(ls, j + 1);
            assert(k < ls.len());
            assert(is_end_line(ls[k])) by {
                lemma_markers_disjoint(ls[k]);
            }
            assert(end_name_of(ls[k]) == name);
            let interior = ls.subrange(j + 1, k);
            let sect = SegSpec::Section {
                name,
                lines: interior,
                end_nl: ls[k].len() > 0 && ls[k].last() == '\n',
            };
            let rest = parse_from(ls, k + 1)->Some_0;
            lemma_parse_render(ls, k + 1);
            // the start marker is terminated because the end marker follows it
            assert(j < ls.len() - 1);
            assert(is_terminated(ls[j]));
            lemma_start_line_recompose(ls[j]);
            lemma_end_line_recompose(ls[k]);
            assert(ls[k].len() > 0);
            assert(seg_text(sect) =~= ls[j] + concat_texts(interior) + ls[k]);
            let whole = parse_from(ls, i)->Some_0;
            assert(whole == free + seq![sect] + rest);
            lemma_segs_text_concat(free + seq![sect], rest);
            lemma_segs_text_concat(free, seq![sect]);
            lemma_segs_text_singleton(sect);
            // the text splits the same way
            assert(concat_texts(ls.subrange(i, ls.len() as int)) =~= concat_texts(run) + ls[j]
                + concat_texts(interior) + ls[k] + concat_texts(
                ls.subrange(k + 1, ls.len() as int),
            )) by {
                lemma_concat_texts_split(ls, i, j, k);
            }
        }
    }
}

// ---------------------------------------------------------------------------
// A well-formed document's rendering parses back
// ---------------------------------------------------------------------------
/// The lines one segment renders to.
pub open spec fn seg_all_lines(seg: SegSpec) -> Seq<Seq<char>> {
    match seg {
        SegSpec::Free { lines } => lines,
        SegSpec::Section { name, lines, end_nl } => seq![start_line_text(name)] + lines + seq![
            end_line_text(name, end_nl),
        ],
    }
}

/// The lines a document renders to.
pub open spec fn doc_lines(segs: Seq<SegSpec>) -> Seq<Seq<char>>
    decreases segs.len(),
{
    if segs.len() == 0 {
        Seq::empty()
    } else {
        seg_all_lines(segs[0]) + doc_lines(segs.drop_first())
    }
}

/// A segment's rendered text is its lines, joined.
proof fn lemma_seg_lines_text(seg: SegSpec)
    ensures
        concat_texts(seg_all_lines(seg)) =~= seg_text(seg),
{
    match seg {
        SegSpec::Free { lines } => {
        },
        SegSpec::Section { name, lines, end_nl } => {
            let a = seq![start_line_text(name)];
            let b = seq![end_line_text(name, end_nl)];
            vstd::seq_lib::lemma_flatten_concat(a + lines, b);
            vstd::seq_lib::lemma_flatten_concat(a, lines);
            a.lemma_flatten_one_element();
            b.lemma_flatten_one_element();
            assert((a + lines) + b =~= a + lines + b);
        },
    }
}

/// A document's rendered text is its lines, joined.
proof fn lemma_doc_lines_text(segs: Seq<SegSpec>)
    ensures
        concat_texts(doc_lines(segs)) =~= segs_text(segs),
    decreases segs.len(),
{
    if segs.len() > 0 {
        lemma_doc_lines_text(segs.drop_first());
        lemma_seg_lines_text(segs[0]);
        vstd::seq_lib::lemma_flatten_concat(
            seg_all_lines(segs[0]),
            doc_lines(segs.drop_first()),
        );
    }
}

/// Every line a well-formed document renders to is a proper line, and each
/// but the last carries its newline.
proof fn lemma_doc_lines_shape(segs: Seq<SegSpec>)
    requires
        doc_wf(segs),
    ensures
        forall|i: int| 0 <= i < doc_lines(segs).len() ==> is_line(#[trigger] doc_lines(segs)[i]),
        forall|i: int|
            0 <= i < doc_lines(segs).len() - 1 ==> is_terminated(#[trigger] doc_lines(segs)[i]),
    decreases segs.len(),
{
    if segs.len() > 0 {
        let head = seg_all_lines(segs[0]);
        let rest = doc_lines(segs.drop_first());
        assert(doc_wf(segs.drop_first())) by {
            assert(forall|x: int|
                0 <= x < segs.drop_first().len() ==> #[trigger] segs.drop_first()[x] == segs[x
                    + 1]);
        }
        lemma_doc_lines_shape(segs.drop_first());
        assert(seg_wf(segs[0], segs.len() == 1));
        lemma_seg_all_lines_shape(segs[0], segs.len() == 1);
        assert(doc_lines(segs) == head + rest);
        assert(segs.len() == 1 ==> rest =~= Seq::<Seq<char>>::empty());
        assert forall|i: int| 0 <= i < doc_lines(segs).len() implies is_line(
            #[trigger] doc_lines(segs)[i],
        ) by {
            if i < head.len() {
                assert(doc_lines(segs)[i] == head[i]);
            } else {
                assert(doc_lines(segs)[i] == rest[i - head.len()]);
            }
        }
        assert forall|i: int| 0 <= i < doc_lines(segs).len() - 1 implies is_terminated(
            #[trigger] doc_lines(segs)[i],
        ) by {
            if i < head.len() {
                assert(doc_lines(segs)[i] == head[i]);
                if segs.len() > 1 {
                    // a non-final segment is fully terminated
                } else {
                    assert(i < head.len() - 1);
                }
            } else {
                assert(doc_lines(segs)[i] == rest[i - head.len()]);
            }
        }
    }
}

/// The lines of one well-formed segment; a non-final segment is fully
/// terminated.
proof fn lemma_seg_all_lines_shape(seg: SegSpec, is_last: bool)
    requires
        seg_wf(seg, is_last),
    ensures
        forall|i: int|
            0 <= i < seg_all_lines(seg).len() ==> is_line(#[trigger] seg_all_lines(seg)[i]),
        forall|i: int|
            0 <= i < seg_all_lines(seg).len() - 1 ==> is_terminated(
                #[trigger] seg_all_lines(seg)[i],
            ),
        !is_last ==> forall|i: int|
            0 <= i < seg_all_lines(seg).len() ==> is_terminated(#[trigger] seg_all_lines(seg)[i]),
{
    match seg {
        SegSpec::Free { lines } => {
            assert(seg_all_lines(seg) == lines);
            assert(forall|i: int|
                0 <= i < lines.len() ==> is_line(#[trigger] lines[i]));
            assert forall|i: int| 0 <= i < lines.len() - 1 implies is_terminated(
                #[trigger] lines[i],
            ) by {
                if is_last {
                    assert(lines[i] == lines.drop_last()[i]);
                }
            }
            if !is_last {
                assert(forall|i: int|
                    0 <= i < lines.len() ==> is_terminated(#[trigger] lines[i]));
            }
        },
        SegSpec::Section { name, lines, end_nl } => {
            lemma_marker_lines_classify(name);
            let all = seq![start_line_text(name)] + lines + seq![end_line_text(name, end_nl)];
            assert(seg_all_lines(seg) == all);
            assert(all.len() == lines.len() + 2);
            assert(all[0] == start_line_text(name));
            assert(all[all.len() - 1] == end_line_text(name, end_nl));
            assert(forall|i: int|
                1 <= i < all.len() - 1 ==> #[trigger] all[i] == lines[i - 1]);
            assert(forall|i: int|
                0 <= i < all.len() ==> is_line(#[trigger] all[i]));
            assert(forall|i: int|
                0 <= i < all.len() - 1 ==> is_terminated(#[trigger] all[i]));
        },
    }
}

/// A run of plain lines ahead changes nothing about whether parsing
/// succeeds.
proof fn lemma_parse_skip_plain(ls: Seq<Seq<char>>, i: int, j: int)
    requires
        0 <= i <= j <= ls.len(),
        forall|x: int| i <= x < j ==> !is_start_line(#[trigger] ls[x]) && !is_end_line(ls[x]),
        parse_from(ls, j) is Some,
    ensures
        parse_from(ls, i) is Some,
{
    lemma_scan_plain(ls, j);
    let m = scan_plain(ls, j);
    lemma_scan_plain_is(ls, i, m);
    if m == ls.len() {
    } else if is_end_line(ls[m]) {
        assert(parse_from(ls, j) is None);
    } else {
    }
}

/// Rendering a well-formed document gives a parseable text again.
proof fn lemma_parse_doc_lines(ls: Seq<Seq<char>>, segs: Seq<SegSpec>, i: int)
    requires
        0 <= i <= ls.len(),
        ls.skip(i) =~= doc_lines(segs),
        doc_wf(segs),
    ensures
        parse_from(ls, i) is Some,
    decreases segs.len(),
{
    if segs.len() == 0 {
        assert(ls.skip(i).len() == 0);
    } else {
        let head = seg_all_lines(segs[0]);
        let rest = segs.drop_first();
        assert(doc_wf(rest)) by {
            assert(forall|x: int|
                0 <= x < rest.len() ==> #[trigger] rest[x] == segs[x + 1]);
        }
        assert(seg_wf(segs[0], segs.len() == 1));
        assert(doc_lines(segs) == seg_all_lines(segs[0]) + doc_lines(segs.drop_first()));
        let n = head.len();
        assert(ls.skip(i).len() == head.len() + doc_lines(rest).len());
        assert forall|x: int| 0 <= x < n implies #[trigger] ls.skip(i)[x] == head[x] by {
            assert(ls.skip(i)[x] == doc_lines(segs)[x]);
            assert(doc_lines(segs)[x] == (head + doc_lines(rest))[x]);
            assert((head + doc_lines(rest))[x] == head[x]);
        }
        assert forall|x: int| i <= x < i + n implies #[trigger] ls[x] == head[x - i] by {
            assert(ls[x] == ls.skip(i)[x - i]);
        }
        assert(ls.skip(i + n) =~= doc_lines(rest)) by {
            assert(forall|x: int|
                0 <= x < ls.skip(i + n).len() ==> #[trigger] ls.skip(i + n)[x] == ls.skip(
                    i,
                )[x + n]);
        }
        lemma_parse_doc_lines(ls, rest, i + n);
        match segs[0] {
            SegSpec::Free { lines } => {
                lemma_parse_skip_plain(ls, i, i + n);
            },
            SegSpec::Section { name, lines, end_nl } => {
                lemma_marker_lines_classify(name);
                assert(ls[i] == start_line_text(name));
                assert(is_start_line(ls[i]));
                lemma_markers_disjoint(ls[i]);
                let k = i + n - 1;
                assert(ls[k] == end_line_text(name, end_nl));
                assert(is_end_line(ls[k]));
                lemma_markers_disjoint(ls[k]);
                assert(forall|x: int|
                    i + 1 <= x < k ==> #[trigger] ls[x] == lines[x - i - 1]);
                lemma_scan_plain_is(ls, i, i);
                lemma_scan_plain_is(ls, i + 1, k);
                assert(start_name_of(ls[i]) =~= name);
                assert(end_name_of(ls[k]) =~= name);
                assert(parse_from(ls, k + 1) is Some);
            },
        }
    }
}

/// What a well-formed document renders to parses back, and what that parse
/// renders is the same text: the rendering of a document, however it was
/// built, is stable under a parse and render pass.
pub proof fn lemma_render_reparses(segs: Seq<SegSpec>)
    requires
        doc_wf(segs),
    ensures
        parse_text(segs_text(segs)) is Some,
        segs_text(parse_text(segs_text(segs))->Some_0) =~= segs_text(segs),
{
    let text = segs_text(segs);
    lemma_doc_lines_text(segs);
    lemma_doc_lines_shape(segs);
    crate::text::lemma_lines_of_flatten(doc_lines(segs));
    assert(lines_of(text) =~= doc_lines(segs));
    let ls = lines_of(text);
    assert(ls.skip(0) =~= doc_lines(segs));
    lemma_parse_doc_lines(ls, segs, 0);
    crate::text::lemma_lines_shape(text);
    lemma_parse_render(ls, 0);
    assert(ls.subrange(0, ls.len() as int) =~= ls);
    crate::text::lemma_lines_roundtrip(text);
}

/// The name on a marker line contains no newline.
pub proof fn lemma_wrap_name_plain(l: Seq<char>, pre: Seq<char>)
    requires
        is_line(l),
        has_wrap(line_sans_nl(l), pre),
    ensures
        !wrap_name(line_sans_nl(l), pre).contains('\n'),
{
    let b = line_sans_nl(l);
    assert(forall|y: int| 0 <= y < b.len() ==> #[trigger] b[y] != '\n') by {
        if l.len() > 0 && l.last() == '\n' {
            assert(forall|y: int| 0 <= y < b.len() ==> b[y] == l[y]);
        } else {
            assert(forall|y: int| 0 <= y < b.len() - 1 ==> b[y] == l[y]);
        }
    }
    let name = wrap_name(b, pre);
    assert(forall|x: int| 0 <= x < name.len() ==> #[trigger] name[x] != '\n');
    if name.contains('\n') {
        let x = choose|x: int| 0 <= x < name.len() && name[x] == '\n';
        assert(false);
    }
}

/// What parsing accepts is a well-formed document.
pub proof fn lemma_parse_wf(ls: Seq<Seq<char>>, i: int)
    requires
        0 <= i <= ls.len(),
        parse_from(ls, i) is Some,
        forall|x: int| 0 <= x < ls.len() ==> is_line(#[trigger] ls[x]),
        forall|x: int| 0 <= x < ls.len() - 1 ==> is_terminated(#[trigger] ls[x]),
    ensures
        doc_wf(parse_from(ls, i)->Some_0),
    decreases ls.len() - i,
{
    if i >= ls.len() {
    } else {
        let j = scan_plain(ls, i);
        lemma_scan_plain(ls, i);
        let run = ls.subrange(i, j);
        let free: Seq<SegSpec> = if i < j {
            seq![SegSpec::Free { lines: run }]
        } else {
            Seq::empty()
        };
        let free_seg = SegSpec::Free { lines: run };
        assert(plain_lines(run));
        if j == ls.len() {
            let whole = parse_from(ls, i)->Some_0;
            assert(whole == free);
            if i < j {
                assert(seg_wf(free_seg, true)) by {
                    assert(forall|x: int|
                        0 <= x < run.len() - 1 ==> is_terminated(#[trigger] run.drop_last()[x]));
                }
                assert(whole.len() == 1);
            }
        } else {
            assert(is_start_line(ls[j])) by {
                lemma_markers_disjoint(ls[j]);
            }
            let name = start_name_of(ls[j]);
            let k = scan_plain(ls, j + 1);
            lemma_scan_plain(ls, j + 1);
            assert(k < ls.len());
            assert(is_end_line(ls[k])) by {
                lemma_markers_disjoint(ls[k]);
            }
            let interior = ls.subrange(j + 1, k);
            let end_nl = ls[k].len() > 0 && ls[k].last() == '\n';
            let sect = SegSpec::Section { name, lines: interior, end_nl };
            let rest = parse_from(ls, k + 1)->Some_0;
            lemma_parse_wf(ls, k + 1);
            let whole = parse_from(ls, i)->Some_0;
            assert(whole == free + seq![sect] + rest);
            assert(j < ls.len() - 1);
            assert(is_terminated(ls[j]));
            lemma_wrap_name_plain(ls[j], start_prefix());
            assert(plain_lines(interior));
            assert(all_terminated(interior)) by {
                assert(forall|x: int|
                    0 <= x < interior.len() ==> interior[x] == ls[j + 1 + x] && j + 1 + x < ls.len()
                        - 1);
            }
            assert(!end_nl ==> k == ls.len() - 1);
            // section open at the end means nothing follows it
            assert(!end_nl ==> rest.len() == 0 && k + 1 == ls.len());
            assert(seg_wf(sect, whole.len() - 1 == free.len()));
            if i < j {
                assert(seg_wf(free_seg, false)) by {
                    assert(forall|x: int| 0 <= x < run.len() ==> run[x] == ls[i + x] && i + x < ls.len() - 1);
                }
            }
            assert(forall|idx: int|
                0 <= idx < whole.len() ==> seg_wf(#[trigger] whole[idx], idx == whole.len() - 1))
                by {
                assert(forall|idx: int|
                    free.len() + 1 <= idx < whole.len() ==> whole[idx] == rest[idx - free.len()
                        - 1]);
                assert(doc_wf(rest));
                assert(forall|idx: int|
                    0 <= idx < rest.len() ==> seg_wf(#[trigger] rest[idx], idx == rest.len() - 1));
                assert(whole[free.len() as int] == sect);
                if i < j {
                    assert(whole[0] == free_seg);
                    if whole.len() - 1 == 0 {
                        assert(false);
                    }
                }
            }
        }
    }
}

/// Splitting `ls[i..]` at a start marker `j` and an end marker `k`.
proof fn lemma_concat_texts_split(ls: Seq<Seq<char>>, i: int, j: int, k: int)
    requires
        0 <= i <= j < k < ls.len(),
    ensures
        concat_texts(ls.subrange(i, ls.len() as int)) =~= concat_texts(ls.subrange(i, j)) + ls[j]
            + concat_texts(ls.subrange(j + 1, k)) + ls[k] + concat_texts(
            ls.subrange(k + 1, ls.len() as int),
        ),
{
    let whole = ls.subrange(i, ls.len() as int);
    let a = ls.subrange(i, j);
    let b = ls.subrange(j, j + 1);
    let c = ls.subrange(j + 1, k);
    let d = ls.subrange(k, k + 1);
    let e = ls.subrange(k + 1, ls.len() as int);
    assert(whole =~= a + b + c + d + e);
    lemma_flatten_concat(a + b + c + d, e);
    lemma_flatten_concat(a + b + c, d);
    lemma_flatten_concat(a + b, c);
    lemma_flatten_concat(a, b);
    assert(concat_texts(b) =~= ls[j]) by {
        assert(b =~= seq![ls[j]]);
        b.lemma_flatten_one_element();
    }
    assert(concat_texts(d) =~= ls[k]) by {
        assert(d =~= seq![ls[k]]);
        d.lemma_flatten_one_element();
    }
}

// ---------------------------------------------------------------------------
// Executable line classification
// ---------------------------------------------------------------------------
/// What one line of the document is.
pub enum LineKind {
    Start { name: String },
    End { name: String },
    Plain,
}

/// True when the line carries its trailing newline.
fn line_terminated(l: &str) -> (r: bool)
    ensures
        r == (l@.len() > 0 && l@.last() == '\n'),
{
    let n = l.unicode_len();
    n > 0 && l.get_char(n - 1) == '\n'
}

/// Length of the line without its trailing newline.
fn body_len(l: &str) -> (r: usize)
    ensures
        r == line_sans_nl(l@).len(),
        r <= l@.len(),
        l@.subrange(0, r as int) =~= line_sans_nl(l@),
{
    let n = l.unicode_len();
    if line_terminated(l) {
        proof {
            assert(l@.subrange(0, n - 1) =~= l@.drop_last());
        }
        n - 1
    } else {
        proof {
            assert(l@.subrange(0, n as int) =~= l@);
        }
        n
    }
}

/// Extracts the wrapped name if the line body is `pre`, a name, then the
/// marker suffix.
fn match_wrap(l: &str, blen: usize, pre: &str) -> (r: Option<String>)
    requires
        blen == line_sans_nl(l@).len(),
        blen <= l@.len(),
        l@.subrange(0, blen as int) == line_sans_nl(l@),
    ensures
        r is Some ==> has_wrap(line_sans_nl(l@), pre@) && r->Some_0@ == wrap_name(
            line_sans_nl(l@),
            pre@,
        ),
        r is None ==> !has_wrap(line_sans_nl(l@), pre@),
{
    let sfx = ") -->";
    let plen = pre.unicode_len();
    let xlen = sfx.unicode_len();
    let ghost b = line_sans_nl(l@);
    if blen < plen || blen - plen < xlen {
        return None;
    }
    let pre_ok = range_matches(l, 0, pre);
    let suf_ok = range_matches(l, blen - xlen, sfx);
    proof {
        assert(b.subrange(0, plen as int) =~= l@.subrange(0, plen as int));
        assert(b.subrange(blen - xlen, blen as int) =~= l@.subrange(
            blen - xlen,
            blen as int,
        ));
        assert(matches_at(l@, 0, pre@) == (l@.subrange(0, plen as int) =~= pre@));
        assert(matches_at(l@, blen - xlen, sfx@) == (l@.subrange(blen - xlen, blen as int)
            =~= sfx@));
        assert(sfx@ == marker_suffix());
    }
    if pre_ok && suf_ok {
        let name = l.substring_char(plen, blen - xlen).to_owned();
        proof {
            assert(wrap_name(b, pre@) =~= l@.subrange(plen as int, blen - xlen));
        }
        Some(name)
    } else {
        None
    }
}

/// Classifies one line as a start marker, an end marker, or plain text.
pub fn classify_line(l: &str) -> (r: LineKind)
    ensures
        match r {
            LineKind::Start { name } => is_start_line(l@) && name@ == start_name_of(l@),
            LineKind::End { name } => is_end_line(l@) && name@ == end_name_of(l@),
            LineKind::Plain => !is_start_line(l@) && !is_end_line(l@),
        },
{
    let blen = body_len(l);
    if let Some(name) = match_wrap(l, blen, "<!-- prime-agent(Start ") {
        return LineKind::Start { name };
    }
    if let Some(name) = match_wrap(l, blen, "<!-- prime-agent(End ") {
        return LineKind::End { name };
    }
    LineKind::Plain
}

/// True when the line is neither marker.
fn line_is_plain(l: &str) -> (r: bool)
    ensures
        r == (!is_start_line(l@) && !is_end_line(l@)),
{
    match classify_line(l) {
        LineKind::Plain => true,
        _ => false,
    }
}

// ---------------------------------------------------------------------------
// Executable document
// ---------------------------------------------------------------------------
/// One segment of the document.
pub enum Segment {
    Free { lines: Vec<String> },
    Section { name: String, lines: Vec<String>, end_nl: bool },
}

impl View for Segment {
    type V = SegSpec;

    open spec fn view(&self) -> SegSpec {
        match self {
            Segment::Free { lines } => SegSpec::Free { lines: views_of(lines@) },
            Segment::Section { name, lines, end_nl } => SegSpec::Section {
                name: name@,
                lines: views_of(lines@),
                end_nl: *end_nl,
            },
        }
    }
}

/// The views of a vector of segments.
pub open spec fn doc_view(segs: Seq<Segment>) -> Seq<SegSpec> {
    segs.map_values(|s: Segment| s@)
}

/// A parsed document: free text interleaved with named sections.
pub struct AgentsDoc {
    pub segments: Vec<Segment>,
}

impl View for AgentsDoc {
    type V = Seq<SegSpec>;

    open spec fn view(&self) -> Seq<SegSpec> {
        doc_view(self.segments@)
    }
}

/// Joins an optional parse remainder onto parsed segments.
pub open spec fn prepend_parsed(pre: Seq<SegSpec>, r: Option<Seq<SegSpec>>) -> Option<
    Seq<SegSpec>,
> {
    match r {
        Option::None => Option::None,
        Option::Some(rest) => Option::Some(pre + rest),
    }
}

/// Clones the lines `v[a..b]`.
fn clone_range(v: &Vec<String>, a: usize, b: usize) -> (r: Vec<String>)
    requires
        a <= b <= v@.len(),
    ensures
        r@ =~= v@.subrange(a as int, b as int),
{
    let mut r: Vec<String> = Vec::new();
    let mut x = a;
    while x < b
        invariant
            a <= x <= b <= v@.len(),
            r@ =~= v@.subrange(a as int, x as int),
        decreases b - x,
    {
        r.push(v[x].clone());
        proof {
            assert(v@.subrange(a as int, x + 1) =~= v@.subrange(a as int, x as int).push(
                v@[x as int],
            ));
        }
        x = x + 1;
    }
    r
}

impl AgentsDoc {
    /// A document with no content at all.
    pub fn empty() -> (r: AgentsDoc)
        ensures
            r@ =~= Seq::<SegSpec>::empty(),
            doc_wf(r@),
    {
        let r = AgentsDoc { segments: Vec::new() };
        proof {
            assert(r@ =~= Seq::<SegSpec>::empty());
        }
        r
    }

    /// Parses a document text into segments.
    ///
    /// Parsing succeeds exactly when every start marker is closed by an end
    /// marker of the same name, with no nesting and no stray end marker; a
    /// parsed document renders back to the input byte for byte.
    pub fn parse(text: &str) -> (r: Result<AgentsDoc, AgentError>)
        ensures
            r is Ok <==> parse_text(text@) is Some,
            r is Ok ==> r->Ok_0@ == parse_text(text@)->Some_0,
            r is Ok ==> doc_wf(r->Ok_0@),
            r is Ok ==> segs_text(r->Ok_0@) =~= text@,
            r is Err ==> r->Err_0 == AgentError::MalformedDocument,
    {
        let lines = split_lines(text);
        let ghost ll = views_of(lines@);
        proof {
            lemma_lines_shape(text@);
            lemma_lines_roundtrip(text@);
        }
        let n = lines.len();
        let mut segs: Vec<Segment> = Vec::new();
        let mut i: usize = 0;
        while i < n
            invariant
                0 <= i <= n,
                n == lines@.len(),
                ll == views_of(lines@),
                ll == lines_of(text@),
                parse_text(text@) == prepend_parsed(doc_view(segs@), parse_from(ll, i as int)),
            decreases n - i,
        {
            let ghost segs0 = segs@;
            let ghost i0 = i as int;
            // scan the free run
            let mut j = i;
            while j < n && line_is_plain(lines[j].as_str())
                invariant
                    i <= j <= n,
                    n == lines@.len(),
                    ll == views_of(lines@),
                    forall|x: int|
                        i <= x < j ==> !is_start_line(#[trigger] ll[x]) && !is_end_line(ll[x]),
                decreases n - j,
            {
                j = j + 1;
            }
            proof {
                lemma_scan_plain_is(ll, i as int, j as int);
            }
            if j > i {
                let run = clone_range(&lines, i, j);
                let seg = Segment::Free { lines: run };
                proof {
                    assert(seg@ == SegSpec::Free { lines: ll.subrange(i as int, j as int) })
                        by {
                        assert(views_of(run@) =~= ll.subrange(i as int, j as int));
                    }
                    assert(doc_view(segs@.push(seg)) =~= doc_view(segs@).push(seg@));
                }
                segs.push(seg);
            }
            if j == n {
                i = n;
                proof {
                    assert(i0 < j);
                    let run = ll.subrange(i0, j as int);
                    assert(parse_from(ll, i0) == Option::Some(
                        seq![SegSpec::Free { lines: run }],
                    ));
                    assert(doc_view(segs@) =~= doc_view(segs0) + seq![
                        SegSpec::Free { lines: run },
                    ]);
                    assert(doc_view(segs@) + Seq::<SegSpec>::empty() =~= doc_view(segs@));
                    assert(parse_from(ll, n as int) == Option::Some(Seq::<SegSpec>::empty()));
                }
            } else {
                match classify_line(lines[j].as_str()) {
                    LineKind::End { name: _ } => {
                        proof {
                            assert(is_end_line(ll[j as int]));
                            assert(parse_from(ll, i0) is None);
                        }
                        return Err(AgentError::MalformedDocument);
                    },
                    LineKind::Plain => {
                        proof {
                            assert(false);
                        }
                        return Err(AgentError::MalformedDocument);
                    },
                    LineKind::Start { name } => {
                        let mut k = j + 1;
                        while k < n && line_is_plain(lines[k].as_str())
                            invariant
                                j + 1 <= k <= n,
                                n == lines@.len(),
                                ll == views_of(lines@),
                                forall|x: int|
                                    j + 1 <= x < k ==> !is_start_line(#[trigger] ll[x])
                                        && !is_end_line(ll[x]),
                            decreases n - k,
                        {
                            k = k + 1;
                        }
                        proof {
                            lemma_scan_plain_is(ll, j + 1, k as int);
                            lemma_markers_disjoint(ll[j as int]);
                            assert(is_start_line(ll[j as int]) && !is_end_line(ll[j as int]));
                        }
                        if k == n {
                            proof {
                                assert(parse_from(ll, i0) is None);
                            }
                            return Err(AgentError::MalformedDocument);
                        }
                        match classify_line(lines[k].as_str()) {
                            LineKind::Start { name: _ } => {
                                proof {
                                    assert(is_start_line(ll[k as int]));
                                    assert(parse_from(ll, i0) is None);
                                }
                                return Err(AgentError::MalformedDocument);
                            },
                            LineKind::Plain => {
                                proof {
                                    assert(false);
                                }
                                return Err(AgentError::MalformedDocument);
                            },
                            LineKind::End { name: end_name } => {
                                proof {
                                    lemma_markers_disjoint(ll[k as int]);
                                    assert(!is_start_line(ll[k as int]));
                                }
                                if !string_eq(&end_name, &name) {
                                    proof {
                                        assert(end_name_of(ll[k as int]) != start_name_of(
                                            ll[j as int],
                                        ));
                                        assert(parse_from(ll, i0) is None);
                                    }
                                    return Err(AgentError::MalformedDocument);
                                }
                                let interior = clone_range(&lines, j + 1, k);
                                let end_nl = line_terminated(lines[k].as_str());
                                let seg = Segment::Section {
                                    name,
                                    lines: interior,
                                    end_nl,
                                };
                                proof {
                                    assert(seg@ == SegSpec::Section {
                                        name: start_name_of(ll[j as int]),
                                        lines: ll.subrange(j + 1, k as int),
                                        end_nl: ll[k as int].len() > 0 && ll[k as int].last()
                                            == '\n',
                                    }) by {
                                        assert(views_of(interior@) =~= ll.subrange(
                                            j + 1,
                                            k as int,
                                        ));
                                    }
                                    assert(doc_view(segs@.push(seg)) =~= doc_view(
                                        segs@,
                                    ).push(seg@));
                                }
                                segs.push(seg);
                                i = k + 1;
                                proof {
                                    let run = ll.subrange(i0, j as int);
                                    let free_part: Seq<SegSpec> = if i0 < j {
                                        seq![SegSpec::Free { lines: run }]
                                    } else {
                                        Seq::empty()
                                    };
                                    let sect = SegSpec::Section {
                                        name: start_name_of(ll[j as int]),
                                        lines: ll.subrange(j + 1, k as int),
                                        end_nl: ll[k as int].len() > 0 && ll[k as int].last()
                                            == '\n',
                                    };
                                    assert(end_name_of(ll[k as int]) == start_name_of(
                                        ll[j as int],
                                    ));
                                    assert(doc_view(segs@) =~= doc_view(segs0) + free_part
                                        + seq![sect]);
                                    match parse_from(ll, i as int) {
                                        Option::None => {
                                            assert(parse_from(ll, i0) is None);
                                        },
                                        Option::Some(rest) => {
                                            assert(parse_from(ll, i0) == Option::Some(
                                                free_part + seq![sect] + rest,
                                            ));
                                            assert(doc_view(segs0) + (free_part + seq![sect]
                                                + rest) =~= (doc_view(segs0) + free_part
                                                + seq![sect]) + rest);
                                        },
                                    }
                                }
                            },
                        }
                    },
                }
            }
        }
        let doc = AgentsDoc { segments: segs };
        proof {
            assert(parse_from(ll, n as int) == Option::Some(Seq::<SegSpec>::empty()));
            assert(doc_view(segs@) + Seq::<SegSpec>::empty() =~= doc_view(segs@));
            lemma_parse_wf(ll, 0);
            lemma_parse_render(ll, 0);
            assert(ll.subrange(0, ll.len() as int) =~= ll);
        }
        Ok(doc)
    }
}

/// Compares two owned strings by content.
pub fn string_eq(a: &String, b: &String) -> (r: bool)
    ensures
        r == (a@ == b@),
{
    a.eq(b)
}

/// Pins `scan_plain` down from what a scan saw.
proof fn lemma_scan_plain_is(ls: Seq<Seq<char>>, i: int, j: int)
    requires
        0 <= i <= j <= ls.len(),
        forall|x: int| i <= x < j ==> !is_start_line(#[trigger] ls[x]) && !is_end_line(ls[x]),
        j < ls.len() ==> is_start_line(ls[j]) || is_end_line(ls[j]),
    ensures
        scan_plain(ls, i) == j,
    decreases j - i,
{
    if i < j {
        lemma_scan_plain_is(ls, i + 1, j);
    }
}

// ---------------------------------------------------------------------------
// Section lookup, update and removal
// ---------------------------------------------------------------------------
/// True when the segment is a section carrying `name`.
pub open spec fn is_section_named(s: SegSpec, name: Seq<char>) -> bool {
    match s {
        SegSpec::Section { name: n, .. } => n == name,
        SegSpec::Free { .. } => false,
    }
}

/// The lines a segment holds.
pub open spec fn seg_lines(s: SegSpec) -> Seq<Seq<char>> {
    match s {
        SegSpec::Free { lines } => lines,
        SegSpec::Section { lines, .. } => lines,
    }
}

/// Whether a section segment ends with a newline after its end marker.
pub open spec fn seg_end_nl(s: SegSpec) -> bool {
    match s {
        SegSpec::Free { .. } => true,
        SegSpec::Section { end_nl, .. } => end_nl,
    }
}

/// Index of the first section carrying `name`, or `-1`.
pub open spec fn sec_idx(segs: Seq<SegSpec>, name: Seq<char>) -> int
    decreases segs.len(),
{
    if segs.len() == 0 {
        -1
    } else if is_section_named(segs[0], name) {
        0
    } else {
        let r = sec_idx(segs.drop_first(), name);
        if r < 0 {
            -1
        } else {
            r + 1
        }
    }
}

pub open spec fn has_section(segs: Seq<SegSpec>, name: Seq<char>) -> bool {
    sec_idx(segs, name) >= 0
}

pub proof fn lemma_sec_idx(segs: Seq<SegSpec>, name: Seq<char>)
    ensures
        -1 <= sec_idx(segs, name) < segs.len(),
        sec_idx(segs, name) >= 0 ==> is_section_named(segs[sec_idx(segs, name)], name),
        forall|x: int|
            0 <= x < segs.len() && (sec_idx(segs, name) == -1 || x < sec_idx(segs, name))
                ==> !is_section_named(#[trigger] segs[x], name),
    decreases segs.len(),
{
    if segs.len() > 0 && !is_section_named(segs[0], name) {
        lemma_sec_idx(segs.drop_first(), name);
        assert(forall|x: int|
            1 <= x < segs.len() ==> #[trigger] segs[x] == segs.drop_first()[x - 1]);
    }
}

/// Pins `sec_idx` down from what a scan saw.
pub proof fn lemma_sec_idx_is(segs: Seq<SegSpec>, name: Seq<char>, k: int)
    requires
        0 <= k < segs.len(),
        is_section_named(segs[k], name),
        forall|x: int| 0 <= x < k ==> !is_section_named(#[trigger] segs[x], name),
    ensures
        sec_idx(segs, name) == k,
    decreases k,
{
    if k > 0 {
        assert(forall|x: int|
            1 <= x < segs.len() ==> segs[x] == #[trigger] segs.drop_first()[x - 1]);
        lemma_sec_idx_is(segs.drop_first(), name, k - 1);
    }
}

pub proof fn lemma_sec_idx_none(segs: Seq<SegSpec>, name: Seq<char>)
    requires
        forall|x: int| 0 <= x < segs.len() ==> !is_section_named(#[trigger] segs[x], name),
    ensures
        sec_idx(segs, name) == -1,
{
    lemma_sec_idx(segs, name);
    if sec_idx(segs, name) >= 0 {
        assert(false);
    }
}

/// The skill content a section holds: its lines without the conventional
/// heading line, when that heading is present.
pub open spec fn sec_body(name: Seq<char>, lines: Seq<Seq<char>>) -> Seq<char> {
    if lines.len() > 0 && lines[0] == heading_line_text(name) {
        concat_texts(lines.drop_first())
    } else {
        concat_texts(lines)
    }
}

/// The content of the first section carrying `name`, if any.
pub open spec fn section_content(segs: Seq<SegSpec>, name: Seq<char>) -> Option<Seq<char>> {
    if has_section(segs, name) {
        Option::Some(sec_body(name, seg_lines(segs[sec_idx(segs, name)])))
    } else {
        Option::None
    }
}

/// The text with a final newline supplied if it lacks one.
pub open spec fn terminated_text(c: Seq<char>) -> Seq<char> {
    if c.len() == 0 || c.last() == '\n' {
        c
    } else {
        c + seq!['\n']
    }
}

/// The interior lines of a freshly written section: heading, then content.
pub open spec fn section_lines_spec(name: Seq<char>, c: Seq<char>) -> Seq<Seq<char>> {
    seq![heading_line_text(name)] + lines_of(terminated_text(c))
}

/// A freshly written section segment.
pub open spec fn new_section(name: Seq<char>, c: Seq<char>) -> SegSpec {
    SegSpec::Section { name, lines: section_lines_spec(name, c), end_nl: true }
}

/// A blank separator line between appended sections.
pub open spec fn blank_seg() -> SegSpec {
    SegSpec::Free { lines: seq![seq!['\n']] }
}

/// True when the text ends with a newline.
pub open spec fn ends_nl(l: Seq<char>) -> bool {
    l.len() > 0 && l.last() == '\n'
}

/// The document with its final line terminated, so that a segment may follow.
pub open spec fn terminate_last_spec(segs: Seq<SegSpec>) -> Seq<SegSpec> {
    if segs.len() == 0 {
        segs
    } else {
        match segs.last() {
            SegSpec::Free { lines } => {
                if lines.len() > 0 && !ends_nl(lines.last()) {
                    segs.update(
                        segs.len() - 1,
                        SegSpec::Free {
                            lines: lines.update(lines.len() - 1, lines.last() + seq!['\n']),
                        },
                    )
                } else {
                    segs
                }
            },
            SegSpec::Section { name, lines, end_nl } => {
                if !end_nl {
                    segs.update(segs.len() - 1, SegSpec::Section { name, lines, end_nl: true })
                } else {
                    segs
                }
            },
        }
    }
}

/// Replaces the first section carrying `name` in place, or appends a new one
/// after the last segment, separated by a blank line.
pub open spec fn upsert_spec(segs: Seq<SegSpec>, name: Seq<char>, c: Seq<char>) -> Seq<SegSpec> {
    let k = sec_idx(segs, name);
    if k >= 0 {
        segs.update(
            k,
            SegSpec::Section {
                name,
                lines: section_lines_spec(name, c),
                end_nl: seg_end_nl(segs[k]),
            },
        )
    } else if segs.len() == 0 {
        seq![new_section(name, c)]
    } else {
        terminate_last_spec(segs) + seq![blank_seg(), new_section(name, c)]
    }
}

/// Deletes the first section carrying `name`, start marker through end
/// marker, leaving every other segment untouched.
pub open spec fn remove_spec(segs: Seq<SegSpec>, name: Seq<char>) -> Seq<SegSpec> {
    let k = sec_idx(segs, name);
    if k < 0 {
        segs
    } else {
        segs.remove(k)
    }
}

/// The section names of the document, in order.
pub open spec fn names_of(segs: Seq<SegSpec>) -> Seq<Seq<char>>
    decreases segs.len(),
{
    if segs.len() == 0 {
        Seq::empty()
    } else {
        (match segs[0] {
            SegSpec::Section { name, .. } => seq![name],
            SegSpec::Free { .. } => Seq::empty(),
        }) + names_of(segs.drop_first())
    }
}

/// The section names of a one-segment list.
pub proof fn lemma_names_of_singleton(s: SegSpec)
    ensures
        names_of(seq![s]) =~= (match s {
            SegSpec::Section { name, .. } => seq![name],
            SegSpec::Free { .. } => Seq::<Seq<char>>::empty(),
        }),
{
    let l = seq![s];
    assert(l[0] == s);
    assert(l.drop_first() =~= Seq::<SegSpec>::empty());
    assert(names_of(l.drop_first()) == Seq::<Seq<char>>::empty());
    match s {
        SegSpec::Section { name, .. } => {
            assert(names_of(l) == seq![name] + names_of(l.drop_first()));
            assert(seq![name] + Seq::<Seq<char>>::empty() =~= seq![name]);
        },
        SegSpec::Free { .. } => {
            assert(names_of(l) == Seq::<Seq<char>>::empty() + names_of(l.drop_first()));
            assert(Seq::<Seq<char>>::empty() + Seq::<Seq<char>>::empty() =~= Seq::<
                Seq<char>,
            >::empty());
        },
    }
}

pub proof fn lemma_names_of_concat(a: Seq<SegSpec>, b: Seq<SegSpec>)
    ensures
        names_of(a + b) =~= names_of(a) + names_of(b),
    decreases a.len(),
{
    if a.len() == 0 {
        assert(a + b =~= b);
    } else {
        lemma_names_of_concat(a.drop_first(), b);
        assert((a + b).drop_first() =~= a.drop_first() + b);
        assert((a + b)[0] == a[0]);
        assert((a + b).len() > 0);
    }
}

/// A name is among the section names exactly when the document has it.
pub proof fn lemma_names_of_has_section(segs: Seq<SegSpec>, name: Seq<char>)
    ensures
        names_of(segs).contains(name) <==> has_section(segs, name),
    decreases segs.len(),
{
    if segs.len() > 0 {
        lemma_names_of_has_section(segs.drop_first(), name)
;
        let head: Seq<Seq<char>> = match segs[0] {
            SegSpec::Section { name: n, .. } => seq![n],
            SegSpec::Free { .. } => Seq::empty(),
        };
        assert(names_of(segs) == head + names_of(segs.drop_first()));
        if is_section_named(segs[0], name) {
            assert(names_of(segs)[0] == name);
        } else {
            if names_of(segs).contains(name) {
                let x = choose|x: int|
                    0 <= x < names_of(segs).len() && names_of(segs)[x] == name;
                assert(x >= head.len());
                assert(names_of(segs.drop_first())[x - head.len()] == name);
            }
            if names_of(segs.drop_first()).contains(name) {
                let x = choose|x: int|
                    0 <= x < names_of(segs.drop_first()).len() && names_of(
                        segs.drop_first(),
                    )[x] == name;
                assert(names_of(segs)[x + head.len()] == name);
            }
        }
    }
}

// ---------------------------------------------------------------------------
// Removal locality
// ---------------------------------------------------------------------------
/// Removing a section removes exactly its marker block: the rendered text of
/// the document splits around the block, and removal keeps both sides byte
/// for byte.
pub proof fn lemma_removal_locality(segs: Seq<SegSpec>, name: Seq<char>)
    requires
        has_section(segs, name),
    ensures
        segs_text(segs) =~= segs_text(segs.take(sec_idx(segs, name))) + seg_text(
            segs[sec_idx(segs, name)],
        ) + segs_text(segs.skip(sec_idx(segs, name) + 1)),
        segs_text(remove_spec(segs, name)) =~= segs_text(segs.take(sec_idx(segs, name)))
            + segs_text(segs.skip(sec_idx(segs, name) + 1)),
{
    let k = sec_idx(segs, name);
    lemma_sec_idx(segs, name);
    assert(segs =~= segs.take(k) + seq![segs[k]] + segs.skip(k + 1));
    lemma_segs_text_concat(segs.take(k) + seq![segs[k]], segs.skip(k + 1));
    lemma_segs_text_concat(segs.take(k), seq![segs[k]]);
    lemma_segs_text_singleton(segs[k]);
    assert(segs_text(segs.take(k) + seq![segs[k]] + segs.skip(k + 1)) == segs_text(segs));
    assert(remove_spec(segs, name) =~= segs.take(k) + segs.skip(k + 1));
    lemma_segs_text_concat(segs.take(k), segs.skip(k + 1));
}

// ---------------------------------------------------------------------------
// Executable section access
// ---------------------------------------------------------------------------
/// A named section paired with its skill content.
pub struct AgentSection {
    pub name: String,
    pub content: String,
}

impl AgentSection {
    /// Wraps a skill's content as the section carrying it.
    pub fn from_content(name: String, content: &str) -> (r: AgentSection)
        ensures
            r.name@ == name@,
            r.content@ == content@,
    {
        AgentSection { name, content: content.to_owned() }
    }

    /// The skill content the section carries.
    pub fn content_string(&self) -> (r: String)
        ensures
            r@ == self.content@,
    {
        self.content.clone()
    }
}

/// Compares two string slices by content.
pub fn str_eq(a: &str, b: &str) -> (r: bool)
    ensures
        r == (a@ == b@),
{
    let na = a.unicode_len();
    let nb = b.unicode_len();
    if na != nb {
        proof {
            assert(a@ != b@);
        }
        return false;
    }
    let mut i: usize = 0;
    while i < na
        invariant
            0 <= i <= na,
            na == a@.len(),
            na == b@.len(),
            forall|j: int| 0 <= j < i ==> a@[j] == b@[j],
        decreases na - i,
    {
        if a.get_char(i) != b.get_char(i) {
            return false;
        }
        i = i + 1;
    }
    proof {
        assert(a@ =~= b@);
    }
    true
}

/// Builds the conventional heading line of a section.
fn heading_line(name: &str) -> (r: String)
    ensures
        r@ =~= heading_line_text(name@),
{
    let mut s = String::new();
    s.append("## ");
    s.append(name);
    s.append("\n");
    proof {
        reveal_strlit("\n");
        assert("\n"@ =~= seq!['\n']);
    }
    s
}

/// Builds the start marker line of a section.
fn start_marker_line(name: &str) -> (r: String)
    ensures
        r@ =~= start_line_text(name@),
{
    let mut s = String::new();
    s.append("<!-- prime-agent(Start ");
    s.append(name);
    s.append(") -->\n");
    proof {
        reveal_strlit(") -->\n");
        reveal_strlit(") -->");
        assert(") -->\n"@ =~= marker_suffix() + seq!['\n']);
    }
    s
}

/// Builds the end marker line of a section.
fn end_marker_line(name: &str, nl: bool) -> (r: String)
    ensures
        r@ =~= end_line_text(name@, nl),
{
    let mut s = String::new();
    s.append("<!-- prime-agent(End ");
    s.append(name);
    if nl {
        s.append(") -->\n");
        proof {
            reveal_strlit(") -->\n");
            reveal_strlit(") -->");
            assert(") -->\n"@ =~= marker_suffix() + seq!['\n']);
        }
    } else {
        s.append(") -->");
        proof {
            assert(marker_suffix() + Seq::<char>::empty() =~= marker_suffix());
        }
    }
    s
}

impl AgentsDoc {
    /// Renders the document back to text, segment by segment.
    pub fn render(&self) -> (r: String)
        ensures
            r@ =~= segs_text(self@),
    {
        let mut out = String::new();
        let mut i: usize = 0;
        while i < self.segments.len()
            invariant
                0 <= i <= self.segments@.len(),
                out@ =~= segs_text(self@.take(i as int)),
            decreases self.segments@.len() - i,
        {
            let ghost pre = self@.take(i as int);
            match &self.segments[i] {
                Segment::Free { lines } => {
                    let body = concat_strings(lines);
                    out.append(body.as_str());
                },
                Segment::Section { name, lines, end_nl } => {
                    let start = start_marker_line(name.as_str());
                    out.append(start.as_str());
                    let body = concat_strings(lines);
                    out.append(body.as_str());
                    let end = end_marker_line(name.as_str(), *end_nl);
                    out.append(end.as_str());
                },
            }
            proof {
                assert(self@.take(i + 1) =~= pre + seq![self@[i as int]]);
                lemma_segs_text_concat(pre, seq![self@[i as int]]);
                lemma_segs_text_singleton(self@[i as int]);
            }
            i = i + 1;
        }
        proof {
            assert(self@.take(self@.len() as int) =~= self@);
        }
        out
    }

    /// The section names of the document, in order.
    pub fn section_names(&self) -> (r: Vec<String>)
        ensures
            views_of(r@) =~= names_of(self@),
    {
        let mut out: Vec<String> = Vec::new();
        let mut i: usize = 0;
        while i < self.segments.len()
            invariant
                0 <= i <= self.segments@.len(),
                views_of(out@) =~= names_of(self@.take(i as int)),
            decreases self.segments@.len() - i,
        {
            let ghost pre = self@.take(i as int);
            match &self.segments[i] {
                Segment::Section { name, .. } => {
                    proof {
                        assert(views_of(out@.push(*name)) =~= views_of(out@).push(name@));
                    }
                    out.push(name.clone());
                },
                Segment::Free { .. } => {
                },
            }
            proof {
                assert(self@.take(i + 1) =~= pre + seq![self@[i as int]]);
                lemma_names_of_concat(pre, seq![self@[i as int]]);
                lemma_names_of_singleton(self@[i as int]);
            }
            i = i + 1;
        }
        proof {
            assert(self@.take(self@.len() as int) =~= self@);
        }
        out
    }

    /// Looks the first section carrying `name` up.
    pub fn get_section(&self, name: &str) -> (r: Option<AgentSection>)
        ensures
            r is Some <==> has_section(self@, name@),
            r is Some ==> r->Some_0.name@ == name@ && Option::Some(r->Some_0.content@)
                == section_content(self@, name@),
    {
        let mut i: usize = 0;
        while i < self.segments.len()
            invariant
                0 <= i <= self.segments@.len(),
                forall|x: int| 0 <= x < i ==> !is_section_named(#[trigger] self@[x], name@),
            decreases self.segments@.len() - i,
        {
            match &self.segments[i] {
                Segment::Section { name: n, lines, .. } => {
                    if str_eq(n.as_str(), name) {
                        proof {
                            lemma_sec_idx_is(self@, name@, i as int);
                        }
                        let heading = heading_line(name);
                        let ghost lv = views_of(lines@);
                        let body: Vec<String> = if lines.len() > 0 && str_eq(
                            lines[0].as_str(),
                            heading.as_str(),
                        ) {
                            let b = clone_range(lines, 1, lines.len());
                            proof {
                                assert(views_of(b@) =~= lv.drop_first());
                            }
                            b
                        } else {
                            let b = clone_range(lines, 0, lines.len());
                            proof {
                                assert(views_of(b@) =~= lv);
                            }
                            b
                        };
                        let content = concat_strings(&body);
                        return Some(AgentSection { name: n.clone(), content });
                    }
                },
                Segment::Free { .. } => {
                },
            }
            i = i + 1;
        }
        proof {
            lemma_sec_idx_none(self@, name@);
        }
        None
    }
}

// ---------------------------------------------------------------------------
// What an upsert leaves behind
// ---------------------------------------------------------------------------
/// Replacing a segment by one naming the same section moves no other
/// section lookup.
proof fn lemma_sec_update_frame(segs: Seq<SegSpec>, k: int, seg: SegSpec, n: Seq<char>)
    requires
        0 <= k < segs.len(),
        forall|m: Seq<char>| is_section_named(segs[k], m) == is_section_named(seg, m),
        !is_section_named(seg, n),
    ensures
        sec_idx(segs.update(k, seg), n) == sec_idx(segs, n),
        sec_idx(segs, n) >= 0 ==> segs.update(k, seg)[sec_idx(segs, n)] == segs[sec_idx(
            segs,
            n,
        )],
    decreases segs.len(),
{
    let s2 = segs.update(k, seg);
    if k == 0 {
        assert(s2[0] == seg);
        assert(s2.drop_first() =~= segs.drop_first());
        assert(!is_section_named(segs[0], n));
        lemma_sec_idx(segs, n);
        lemma_sec_idx(s2, n);
        let r = sec_idx(segs.drop_first(), n);
        if r >= 0 {
            lemma_sec_idx(segs.drop_first(), n);
            assert(segs[r + 1] == segs.drop_first()[r]);
            assert(s2[r + 1] == s2.drop_first()[r]);
        }
    } else {
        assert(s2[0] == segs[0]);
        assert(s2.drop_first() =~= segs.drop_first().update(k - 1, seg));
        if !is_section_named(segs[0], n) {
            lemma_sec_update_frame(segs.drop_first(), k - 1, seg, n);
            lemma_sec_idx(segs, n);
            lemma_sec_idx(s2, n);
            if sec_idx(segs.drop_first(), n) >= 0 {
                assert(segs[sec_idx(segs.drop_first(), n) + 1] == segs.drop_first()[sec_idx(
                    segs.drop_first(),
                    n,
                )]);
                assert(s2[sec_idx(segs.drop_first(), n) + 1] == s2.drop_first()[sec_idx(
                    segs.drop_first(),
                    n,
                )]);
            }
        }
    }
}

/// Appending segments that never carry `n` moves its lookup nowhere.
proof fn lemma_sec_append_frame(segs: Seq<SegSpec>, tail: Seq<SegSpec>, n: Seq<char>)
    requires
        forall|x: int| 0 <= x < tail.len() ==> !is_section_named(#[trigger] tail[x], n),
    ensures
        sec_idx(segs + tail, n) == sec_idx(segs, n),
        sec_idx(segs, n) >= 0 ==> (segs + tail)[sec_idx(segs, n)] == segs[sec_idx(segs, n)],
    decreases segs.len(),
{
    let s2 = segs + tail;
    if segs.len() == 0 {
        assert(s2 =~= tail);
        lemma_sec_idx_none(tail, n);
    } else {
        assert(s2[0] == segs[0]);
        assert(s2.drop_first() =~= segs.drop_first() + tail);
        if !is_section_named(segs[0], n) {
            lemma_sec_append_frame(segs.drop_first(), tail, n);
            lemma_sec_idx(segs, n);
            if sec_idx(segs.drop_first(), n) >= 0 {
                assert(segs[sec_idx(segs.drop_first(), n) + 1] == segs.drop_first()[sec_idx(
                    segs.drop_first(),
                    n,
                )]);
                assert(s2[sec_idx(segs.drop_first(), n) + 1] == s2.drop_first()[sec_idx(
                    segs.drop_first(),
                    n,
                )]);
            }
        }
    }
}

/// Terminating the final line changes no section's name or content.
proof fn lemma_terminate_last_frame(segs: Seq<SegSpec>, n: Seq<char>)
    ensures
        sec_idx(terminate_last_spec(segs), n) == sec_idx(segs, n),
        section_content(terminate_last_spec(segs), n) == section_content(segs, n),
{
    let s2 = terminate_last_spec(segs);
    if segs.len() > 0 {
        match segs.last() {
            SegSpec::Free { lines } => {
                if lines.len() > 0 && !ends_nl(lines.last()) {
                    let seg = SegSpec::Free {
                        lines: lines.update(lines.len() - 1, lines.last() + seq!['\n']),
                    };
                    assert(forall|m: Seq<char>|
                        is_section_named(segs.last(), m) == is_section_named(seg, m));
                    if is_section_named(segs.last(), n) {
                    } else {
                        lemma_sec_update_frame(segs, segs.len() - 1, seg, n);
                    }
                }
            },
            SegSpec::Section { name, lines, end_nl } => {
                if !end_nl {
                    let seg = SegSpec::Section { name, lines, end_nl: true };
                    assert(forall|m: Seq<char>|
                        is_section_named(segs.last(), m) == is_section_named(seg, m));
                    if n == name {
                        lemma_sec_idx(segs, n);
                        lemma_sec_idx(s2, n);
                        let k = sec_idx(segs, n);
                        assert(k >= 0);
                        if k < segs.len() - 1 {
                            lemma_sec_update_frame_named(segs, segs.len() - 1, seg, n, k);
                        } else {
                            lemma_sec_idx_is(s2, n, segs.len() - 1);
                            assert(seg_lines(s2[segs.len() - 1]) == seg_lines(
                                segs[segs.len() - 1],
                            ));
                        }
                    } else {
                        lemma_sec_update_frame(segs, segs.len() - 1, seg, n);
                    }
                }
            },
        }
    }
}

/// A replacement behind the first match leaves the first match alone.
proof fn lemma_sec_update_frame_named(
    segs: Seq<SegSpec>,
    j: int,
    seg: SegSpec,
    n: Seq<char>,
    k: int,
)
    requires
        0 <= k < j < segs.len(),
        forall|m: Seq<char>| is_section_named(segs[j], m) == is_section_named(seg, m),
        sec_idx(segs, n) == k,
    ensures
        sec_idx(segs.update(j, seg), n) == k,
        segs.update(j, seg)[k] == segs[k],
{
    lemma_sec_idx(segs, n);
    let s2 = segs.update(j, seg);
    lemma_sec_idx_is(s2, n, k);
}

/// What replacing or appending a section leaves under each name: the
/// written name holds the terminated content behind its heading; every
/// other name is untouched.
pub proof fn lemma_upsert_content(segs: Seq<SegSpec>, name: Seq<char>, c: Seq<char>)
    ensures
        has_section(upsert_spec(segs, name, c), name),
        section_content(upsert_spec(segs, name, c), name) == Option::Some(terminated_text(c)),
        forall|n: Seq<char>|
            n != name ==> #[trigger] section_content(upsert_spec(segs, name, c), n)
                == section_content(segs, n) && has_section(upsert_spec(segs, name, c), n)
                == has_section(segs, n),
{
    let up = upsert_spec(segs, name, c);
    let sl = section_lines_spec(name, c);
    let fresh = SegSpec::Section { name, lines: sl, end_nl: true };
    assert(sec_body(name, sl) == terminated_text(c)) by {
        assert(sl[0] == heading_line_text(name));
        assert(sl.drop_first() =~= lines_of(terminated_text(c)));
        crate::text::lemma_lines_roundtrip(terminated_text(c));
    }
    let k = sec_idx(segs, name);
    lemma_sec_idx(segs, name);
    if k >= 0 {
        let seg = SegSpec::Section { name, lines: sl, end_nl: seg_end_nl(segs[k]) };
        assert(is_section_named(segs[k], name));
        assert(forall|m: Seq<char>|
            is_section_named(segs[k], m) == is_section_named(seg, m));
        lemma_sec_idx_is(up, name, k);
        assert(seg_lines(up[k]) == sl);
        assert forall|n: Seq<char>| n != name implies #[trigger] section_content(up, n)
            == section_content(segs, n) && has_section(up, n) == has_section(segs, n) by {
            lemma_sec_update_frame(segs, k, seg, n);
        }
    } else if segs.len() == 0 {
        assert(up =~= seq![fresh]);
        lemma_sec_idx_is(up, name, 0);
        assert forall|n: Seq<char>| n != name implies #[trigger] section_content(up, n)
            == section_content(segs, n) && has_section(up, n) == has_section(segs, n) by {
            lemma_sec_idx_none(up, n);
        }
    } else {
        let base = terminate_last_spec(segs);
        let tail = seq![blank_seg(), fresh];
        assert(up == base + tail);
        assert(base.len() == segs.len());
        // the written name was absent, so it now stands first at the end
        assert(forall|x: int|
            0 <= x < base.len() ==> is_section_named(#[trigger] base[x], name)
                == is_section_named(segs[x], name)) by {
            lemma_terminate_last_same_names(segs);
        }
        assert(up[base.len() as int + 1] == fresh);
        lemma_sec_idx_is(up, name, base.len() as int + 1);
        assert(seg_lines(up[base.len() as int + 1]) == sl);
        assert forall|n: Seq<char>| n != name implies #[trigger] section_content(up, n)
            == section_content(segs, n) && has_section(up, n) == has_section(segs, n) by {
            assert(!is_section_named(blank_seg(), n));
            assert(!is_section_named(fresh, n));
            assert(forall|x: int|
                0 <= x < tail.len() ==> !is_section_named(#[trigger] tail[x], n));
            lemma_sec_append_frame(base, tail, n);
            lemma_terminate_last_frame(segs, n);
        }
    }
}

/// Terminating the final line renames no segment.
proof fn lemma_terminate_last_same_names(segs: Seq<SegSpec>)
    ensures
        terminate_last_spec(segs).len() == segs.len(),
        forall|x: int, m: Seq<char>|
            0 <= x < segs.len() ==> #[trigger] is_section_named(terminate_last_spec(segs)[x], m)
                == is_section_named(segs[x], m),
{
    if segs.len() > 0 {
        match segs.last() {
            SegSpec::Free { lines } => {
            },
            SegSpec::Section { name, lines, end_nl } => {
            },
        }
    }
}

// ---------------------------------------------------------------------------
// Updates preserve well-formedness
// ---------------------------------------------------------------------------
/// A content whose lines carry no marker: the only content an update can
/// write without breaking the document's grammar.
pub open spec fn plain_content(c: Seq<char>) -> bool {
    plain_lines(lines_of(terminated_text(c)))
}

/// The heading line is a proper line and no marker.
proof fn lemma_heading_plain(name: Seq<char>)
    requires
        !name.contains('\n'),
    ensures
        is_terminated(heading_line_text(name)),
        !is_start_line(heading_line_text(name)),
        !is_end_line(heading_line_text(name)),
{
    reveal_strlit("## ");
    reveal_strlit("<!-- prime-agent(Start ");
    reveal_strlit("<!-- prime-agent(End ");
    let h = heading_line_text(name);
    assert(h.last() == '\n');
    assert(is_terminated(h)) by {
        assert(forall|i: int| 0 <= i < name.len() ==> #[trigger] name[i] != '\n');
        assert(forall|i: int|
            3 <= i < h.len() - 1 ==> #[trigger] h[i] == name[i - 3]);
        assert(h[0] == '#' && h[1] == '#' && h[2] == ' ');
    }
    let b = line_sans_nl(h);
    assert(b[0] == '#');
    if is_start_line(h) {
        assert(b.subrange(0, start_prefix().len() as int)[0] == b[0]);
        assert(start_prefix()[0] == '<');
        assert(false);
    }
    if is_end_line(h) {
        assert(b.subrange(0, end_prefix().len() as int)[0] == b[0]);
        assert(end_prefix()[0] == '<');
        assert(false);
    }
}

/// The blank separator line is a proper line and no marker.
proof fn lemma_blank_plain()
    ensures
        seg_wf(blank_seg(), false),
        seg_wf(blank_seg(), true),
{
    reveal_strlit("<!-- prime-agent(Start ");
    reveal_strlit("<!-- prime-agent(End ");
    let l = seq!['\n'];
    assert(is_terminated(l));
    assert(!is_start_line(l)) by {
        assert(line_sans_nl(l).len() == 0);
    }
    assert(!is_end_line(l)) by {
        assert(line_sans_nl(l).len() == 0);
    }
    let lines = blank_seg()->Free_lines;
    assert(lines == seq![l]);
    assert(forall|i: int| 0 <= i < lines.len() ==> #[trigger] lines[i] == l);
    assert(forall|i: int|
        0 <= i < lines.drop_last().len() ==> #[trigger] lines.drop_last()[i] == l);
}

/// A freshly written section is well-formed wherever it stands.
proof fn lemma_new_section_wf(name: Seq<char>, c: Seq<char>, is_last: bool)
    requires
        !name.contains('\n'),
        plain_content(c),
    ensures
        seg_wf(new_section(name, c), is_last),
{
    let sl = section_lines_spec(name, c);
    lemma_heading_plain(name);
    crate::text::lemma_lines_shape(terminated_text(c));
    let body = lines_of(terminated_text(c));
    assert(sl[0] == heading_line_text(name));
    assert(forall|i: int| 1 <= i < sl.len() ==> #[trigger] sl[i] == body[i - 1]);
    assert(plain_lines(sl));
    assert(all_terminated(sl)) by {
        if terminated_text(c).len() > 0 {
            assert(terminated_text(c).last() == '\n');
            assert(forall|i: int|
                0 <= i < body.len() - 1 ==> is_terminated(#[trigger] body[i]));
            assert(body.len() > 0 ==> is_terminated(body.last()));
            assert(forall|i: int|
                1 <= i < sl.len() ==> is_terminated(#[trigger] sl[i]));
        } else {
            assert(body.len() == 0);
        }
    }
}

/// Replacing or appending a section keeps the document well-formed, as long
/// as the name and the content carry no marker syntax of their own.
pub proof fn lemma_upsert_wf(segs: Seq<SegSpec>, name: Seq<char>, c: Seq<char>)
    requires
        doc_wf(segs),
        !name.contains('\n'),
        plain_content(c),
    ensures
        doc_wf(upsert_spec(segs, name, c)),
{
    let up = upsert_spec(segs, name, c);
    let k = sec_idx(segs, name);
    lemma_sec_idx(segs, name);
    if k >= 0 {
        let seg = SegSpec::Section {
            name,
            lines: section_lines_spec(name, c),
            end_nl: seg_end_nl(segs[k]),
        };
        lemma_new_section_wf(name, c, k == segs.len() - 1);
        assert(seg_wf(segs[k], k == segs.len() - 1));
        assert(seg_end_nl(segs[k]) == false ==> k == segs.len() - 1);
        assert(seg_wf(seg, k == segs.len() - 1)) by {
            assert(seg_wf(new_section(name, c), k == segs.len() - 1));
        }
        assert forall|i: int| 0 <= i < up.len() implies seg_wf(
            #[trigger] up[i],
            i == up.len() - 1,
        ) by {
            if i != k {
                assert(up[i] == segs[i]);
            }
        }
    } else if segs.len() == 0 {
        lemma_new_section_wf(name, c, true);
        assert(up =~= seq![new_section(name, c)]);
    } else {
        let base = terminate_last_spec(segs);
        lemma_terminate_last_wf(segs);
        lemma_blank_plain();
        lemma_new_section_wf(name, c, true);
        assert(up == base + seq![blank_seg(), new_section(name, c)]);
        assert forall|i: int| 0 <= i < up.len() implies seg_wf(
            #[trigger] up[i],
            i == up.len() - 1,
        ) by {
            if i < base.len() {
                assert(up[i] == base[i]);
                assert(seg_wf(base[i], false));
            } else if i == base.len() {
                assert(up[i] == blank_seg());
            } else {
                assert(up[i] == new_section(name, c));
            }
        }
    }
}

/// What a non-final segment satisfies, a final one satisfies too.
proof fn lemma_seg_wf_relax(seg: SegSpec)
    requires
        seg_wf(seg, false),
    ensures
        seg_wf(seg, true),
{
    match seg {
        SegSpec::Free { lines } => {
            assert(forall|i: int|
                0 <= i < lines.len() - 1 ==> lines.drop_last()[i] == #[trigger] lines[i]);
            assert(forall|i: int|
                0 <= i < lines.drop_last().len() ==> is_terminated(
                    #[trigger] lines.drop_last()[i],
                ));
        },
        SegSpec::Section { .. } => {
        },
    }
}

/// Deleting a section keeps the document well-formed.
pub proof fn lemma_remove_wf(segs: Seq<SegSpec>, name: Seq<char>)
    requires
        doc_wf(segs),
    ensures
        doc_wf(remove_spec(segs, name)),
{
    let k = sec_idx(segs, name);
    lemma_sec_idx(segs, name);
    if k >= 0 {
        let s2 = segs.remove(k);
        assert forall|i: int| 0 <= i < s2.len() implies seg_wf(
            #[trigger] s2[i],
            i == s2.len() - 1,
        ) by {
            if i < k {
                assert(s2[i] == segs[i]);
                if i == s2.len() - 1 {
                    // the removed section was the last segment
                    assert(seg_wf(segs[i], false));
                    lemma_seg_wf_relax(segs[i]);
                } else {
                    assert(seg_wf(segs[i], false));
                }
            } else {
                assert(s2[i] == segs[i + 1]);
                assert(seg_wf(segs[i + 1], i + 1 == segs.len() - 1));
            }
        }
    }
}

/// Terminating the final line leaves every segment well-formed even with a
/// segment following it.
proof fn lemma_terminate_last_wf(segs: Seq<SegSpec>)
    requires
        doc_wf(segs),
        segs.len() > 0,
    ensures
        terminate_last_spec(segs).len() == segs.len(),
        forall|i: int|
            0 <= i < segs.len() ==> seg_wf(#[trigger] terminate_last_spec(segs)[i], false),
{
    let s2 = terminate_last_spec(segs);
    let last = segs.last();
    assert(seg_wf(last, true));
    match last {
        SegSpec::Free { lines } => {
            if lines.len() > 0 && !ends_nl(lines.last()) {
                let fixed = lines.update(lines.len() - 1, lines.last() + seq!['\n']);
                let seg = SegSpec::Free { lines: fixed };
                assert(seg_wf(seg, false)) by {
                    assert(forall|i: int|
                        0 <= i < fixed.len() - 1 ==> #[trigger] fixed[i] == lines[i]);
                    assert(forall|i: int|
                        0 <= i < lines.len() - 1 ==> lines.drop_last()[i] == #[trigger] lines[i]);
                    let fl = fixed.last();
                    assert(fl == lines.last() + seq!['\n']);
                    assert(is_line(lines.last()));
                    assert(lines.last().last() != '\n');
                    assert(is_terminated(fl)) by {
                        assert(forall|i: int|
                            0 <= i < fl.len() - 1 ==> #[trigger] fl[i] == lines.last()[i]);
                        assert(fl.last() == '\n');
                    }
                    assert(!is_start_line(fl) && !is_end_line(fl)) by {
                        assert(line_sans_nl(fl) =~= lines.last()) by {
                            assert(fl.drop_last() =~= lines.last());
                        }
                        assert(line_sans_nl(lines.last()) =~= lines.last());
                        assert(!is_start_line(lines.last()) && !is_end_line(lines.last()));
                    }
                    assert(plain_lines(fixed));
                    assert(all_terminated(fixed));
                }
                assert forall|i: int| 0 <= i < segs.len() implies seg_wf(
                    #[trigger] s2[i],
                    false,
                ) by {
                    if i < segs.len() - 1 {
                        assert(s2[i] == segs[i]);
                        assert(seg_wf(segs[i], false));
                    } else {
                        assert(s2[i] == seg);
                    }
                }
            } else {
                assert(s2 == segs);
                assert forall|i: int| 0 <= i < segs.len() implies seg_wf(
                    #[trigger] s2[i],
                    false,
                ) by {
                    if i < segs.len() - 1 {
                        assert(seg_wf(segs[i], false));
                    } else {
                        assert(seg_wf(last, true));
                        match last {
                            SegSpec::Free { lines } => {
                                assert(lines.len() > 0);
                                assert(ends_nl(lines.last()));
                                assert(is_terminated(lines.last()));
                                assert(forall|x: int|
                                    0 <= x < lines.len() - 1 ==> lines.drop_last()[x]
                                        == #[trigger] lines[x]);
                                assert(all_terminated(lines));
                            },
                            SegSpec::Section { .. } => {
                            },
                        }
                    }
                }
            }
        },
        SegSpec::Section { name, lines, end_nl } => {
            let seg = SegSpec::Section { name, lines, end_nl: true };
            assert forall|i: int| 0 <= i < segs.len() implies seg_wf(
                #[trigger] s2[i],
                false,
            ) by {
                if i < segs.len() - 1 {
                    if !end_nl {
                        assert(s2[i] == segs[i]);
                    } else {
                        assert(s2 == segs);
                    }
                    assert(seg_wf(segs[i], false));
                } else {
                    if !end_nl {
                        assert(s2[i] == seg);
                    } else {
                        assert(s2 == segs);
                        assert(s2[i] == last);
                    }
                }
            }
        },
    }
}

// ---------------------------------------------------------------------------
// Executable update and removal
// ---------------------------------------------------------------------------
/// Appends a final newline to the content if it lacks one.
fn terminated_string(content: &str) -> (r: String)
    ensures
        r@ =~= terminated_text(content@),
{
    let n = content.unicode_len();
    if n == 0 || content.get_char(n - 1) == '\n' {
        content.to_owned()
    } else {
        let mut s = content.to_owned();
        s.append("\n");
        proof {
            reveal_strlit("\n");
            assert("\n"@ =~= seq!['\n']);
        }
        s
    }
}

/// Builds the interior lines of a freshly written section.
fn section_lines(name: &str, content: &str) -> (r: Vec<String>)
    ensures
        views_of(r@) =~= section_lines_spec(name@, content@),
{
    let mut v: Vec<String> = Vec::new();
    v.push(heading_line(name));
    let body = terminated_string(content);
    let mut rest = split_lines(body.as_str());
    let ghost v1 = v@;
    let ghost restv = rest@;
    v.append(&mut rest);
    proof {
        assert(views_of(v@) =~= views_of(v1) + views_of(restv));
        assert(views_of(v1) =~= seq![heading_line_text(name@)]);
    }
    v
}

/// A blank separator line.
fn blank_line_string() -> (r: String)
    ensures
        r@ =~= seq!['\n'],
{
    let mut s = String::new();
    s.append("\n");
    proof {
        reveal_strlit("\n");
        assert("\n"@ =~= seq!['\n']);
    }
    s
}

impl AgentsDoc {
    /// Position of the first section carrying `name`.
    fn find_section_idx(&self, name: &str) -> (r: Option<usize>)
        ensures
            match r {
                Option::Some(i) => i < self@.len() && sec_idx(self@, name@) == i,
                Option::None => sec_idx(self@, name@) == -1,
            },
    {
        let mut i: usize = 0;
        while i < self.segments.len()
            invariant
                0 <= i <= self.segments@.len(),
                forall|x: int| 0 <= x < i ==> !is_section_named(#[trigger] self@[x], name@),
            decreases self.segments@.len() - i,
        {
            match &self.segments[i] {
                Segment::Section { name: n, .. } => {
                    if str_eq(n.as_str(), name) {
                        proof {
                            lemma_sec_idx_is(self@, name@, i as int);
                        }
                        return Some(i);
                    }
                },
                Segment::Free { .. } => {
                },
            }
            i = i + 1;
        }
        proof {
            lemma_sec_idx_none(self@, name@);
        }
        None
    }

    /// Terminates the final line of the document, so a segment may follow.
    fn terminate_last(&mut self)
        ensures
            final(self)@ == terminate_last_spec(old(self)@),
    {
        let ghost segs0 = self@;
        let n = self.segments.len();
        if n == 0 {
            return ;
        }
        let last = self.segments.pop().unwrap();
        match last {
            Segment::Free { mut lines } => {
                let ghost lv = views_of(lines@);
                let fix = lines.len() > 0 && !line_terminated(
                    lines[lines.len() - 1].as_str(),
                );
                if fix {
                    let mut l = lines.pop().unwrap();
                    l.append("\n");
                    proof {
                        reveal_strlit("\n");
                        assert("\n"@ =~= seq!['\n']);
                    }
                    let ghost l1 = l@;
                    lines.push(l);
                    proof {
                        assert(views_of(lines@) =~= lv.update(lv.len() - 1, lv.last()
                            + seq!['\n']));
                    }
                }
                let seg = Segment::Free { lines };
                self.segments.push(seg);
                proof {
                    if fix {
                        assert(self@ =~= segs0.update(segs0.len() - 1, seg@));
                    } else {
                        assert(self@ =~= segs0);
                    }
                }
            },
            Segment::Section { name, lines, end_nl } => {
                let seg = Segment::Section { name, lines, end_nl: true };
                self.segments.push(seg);
                proof {
                    if !end_nl {
                        assert(self@ =~= segs0.update(segs0.len() - 1, seg@));
                    } else {
                        assert(self@ =~= segs0);
                    }
                }
            },
        }
    }

    /// Replaces the section carrying the same name in place, or appends the
    /// section at the end, after a blank separator line.
    pub fn upsert_section(&mut self, sec: AgentSection)
        ensures
            final(self)@ == upsert_spec(old(self)@, sec.name@, sec.content@),
    {
        let ghost segs0 = self@;
        let lines = section_lines(sec.name.as_str(), sec.content.as_str());
        match self.find_section_idx(sec.name.as_str()) {
            Some(i) => {
                proof {
                    lemma_sec_idx(self@, sec.name@);
                }
                let end_nl = match &self.segments[i] {
                    Segment::Section { end_nl, .. } => *end_nl,
                    Segment::Free { .. } => true,
                };
                let seg = Segment::Section { name: sec.name, lines, end_nl };
                self.segments.set(i, seg);
                proof {
                    assert(self@ =~= segs0.update(i as int, seg@));
                }
            },
            None => {
                if self.segments.len() == 0 {
                    let seg = Segment::Section { name: sec.name, lines, end_nl: true };
                    self.segments.push(seg);
                    proof {
                        assert(self@ =~= seq![seg@]);
                    }
                } else {
                    self.terminate_last();
                    let ghost base = self@;
                    let mut blank_lines: Vec<String> = Vec::new();
                    blank_lines.push(blank_line_string());
                    let blank = Segment::Free { lines: blank_lines };
                    proof {
                        assert(blank@ == blank_seg()) by {
                            assert(views_of(blank_lines@) =~= seq![seq!['\n']]);
                        }
                    }
                    self.segments.push(blank);
                    let seg = Segment::Section { name: sec.name, lines, end_nl: true };
                    self.segments.push(seg);
                    proof {
                        assert(self@ =~= base + seq![blank_seg(), seg@]);
                    }
                }
            },
        }
    }

    /// Deletes the first section carrying `name`; reports whether one was
    /// found.
    pub fn remove_section(&mut self, name: &str) -> (r: bool)
        ensures
            final(self)@ == remove_spec(old(self)@, name@),
            r == has_section(old(self)@, name@),
    {
        let ghost segs0 = self@;
        match self.find_section_idx(name) {
            Some(i) => {
                self.segments.remove(i);
                proof {
                    assert(self@ =~= segs0.remove(i as int));
                }
                true
            },
            None => false,
        }
    }
}

// ---------------------------------------------------------------------------
// Rendering a fresh document from chosen sections
// ---------------------------------------------------------------------------
/// Segments after the first chosen section: each behind a blank separator.
pub open spec fn sections_segs_tail(ss: Seq<AgentSection>) -> Seq<SegSpec>
    decreases ss.len(),
{
    if ss.len() == 0 {
        Seq::empty()
    } else {
        seq![blank_seg(), new_section(ss[0].name@, ss[0].content@)] + sections_segs_tail(
            ss.drop_first(),
        )
    }
}

/// The segments of a fresh document holding exactly the chosen sections.
pub open spec fn sections_segs(ss: Seq<AgentSection>) -> Seq<SegSpec> {
    if ss.len() == 0 {
        Seq::empty()
    } else {
        seq![new_section(ss[0].name@, ss[0].content@)] + sections_segs_tail(ss.drop_first())
    }
}

proof fn lemma_sections_segs_tail_snoc(ss: Seq<AgentSection>)
    requires
        ss.len() > 0,
    ensures
        sections_segs_tail(ss) =~= sections_segs_tail(ss.drop_last()) + seq![
            blank_seg(),
            new_section(ss.last().name@, ss.last().content@),
        ],
    decreases ss.len(),
{
    if ss.len() == 1 {
        assert(ss.drop_first() =~= Seq::<AgentSection>::empty());
        assert(ss.drop_last() =~= Seq::<AgentSection>::empty());
        assert(ss[0] == ss.last());
    } else {
        lemma_sections_segs_tail_snoc(ss.drop_first());
        assert(ss.drop_last().drop_first() =~= ss.drop_first().drop_last());
        assert(ss.drop_first().last() == ss.last());
        assert(ss.drop_last()[0] == ss[0]);
        assert(ss.drop_last().len() > 0);
    }
}

proof fn lemma_sections_segs_snoc(ss: Seq<AgentSection>)
    requires
        ss.len() > 0,
    ensures
        ss.len() == 1 ==> sections_segs(ss) =~= seq![
            new_section(ss[0].name@, ss[0].content@),
        ],
        ss.len() > 1 ==> sections_segs(ss) =~= sections_segs(ss.drop_last()) + seq![
            blank_seg(),
            new_section(ss.last().name@, ss.last().content@),
        ],
{
    if ss.len() == 1 {
        assert(ss.drop_first() =~= Seq::<AgentSection>::empty());
    } else {
        lemma_sections_segs_tail_snoc(ss.drop_first());
        assert(ss.drop_last().drop_first() =~= ss.drop_first().drop_last());
        assert(ss.drop_first().last() == ss.last());
        assert(ss.drop_last()[0] == ss[0]);
        assert(ss.drop_last().len() > 0);
    }
}

/// Renders a fresh document holding exactly the chosen sections, in order,
/// separated by blank lines.
pub fn render_sections(sections: &Vec<AgentSection>) -> (r: String)
    ensures
        r@ =~= segs_text(sections_segs(sections@)),
{
    let mut segs: Vec<Segment> = Vec::new();
    let mut i: usize = 0;
    while i < sections.len()
        invariant
            0 <= i <= sections@.len(),
            doc_view(segs@) =~= sections_segs(sections@.take(i as int)),
        decreases sections@.len() - i,
    {
        let ghost pre = doc_view(segs@);
        if i > 0 {
            let mut blank_lines: Vec<String> = Vec::new();
            blank_lines.push(blank_line_string());
            let blank = Segment::Free { lines: blank_lines };
            proof {
                assert(blank@ == blank_seg()) by {
                    assert(views_of(blank_lines@) =~= seq![seq!['\n']]);
                }
            }
            segs.push(blank);
        }
        let lines = section_lines(sections[i].name.as_str(), sections[i].content.as_str());
        let seg = Segment::Section { name: sections[i].name.clone(), lines, end_nl: true };
        segs.push(seg);
        proof {
            let cur = sections@.take(i + 1);
            assert(cur.drop_last() =~= sections@.take(i as int));
            assert(cur.last() == sections@[i as int]);
            lemma_sections_segs_snoc(cur);
            if i == 0 {
                assert(doc_view(segs@) =~= pre + seq![seg@]);
                assert(pre =~= Seq::<SegSpec>::empty()) by {
                    assert(sections@.take(0) =~= Seq::<AgentSection>::empty());
                }
                assert(Seq::<SegSpec>::empty() + seq![seg@] =~= seq![seg@]);
            } else {
                assert(doc_view(segs@) =~= pre + seq![blank_seg(), seg@]);
            }
        }
        i = i + 1;
    }
    proof {
        assert(sections@.take(sections@.len() as int) =~= sections@);
    }
    let doc = AgentsDoc { segments: segs };
    doc.render()
}

} // verus!
