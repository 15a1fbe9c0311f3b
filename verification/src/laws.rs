//! What holds of every extraction.
//!
//! The parser is specified as a state machine. The laws of this module say
//! what that machine amounts to for a single component: which lines its body
//! is made of, which sources its record names, and that the last definition
//! in scan order decides. They also say that there is one artifact for each
//! component, and that an extraction can be repeated with the same outcome.

use vstd::prelude::*;
use crate::component::{extended, lemma_lists_insert, lists, opened, sorted_ids, ComponentView};
use crate::extract::{
    artifact_of, artifacts_of, extraction, has_conflict, in_conflict, scan, Outcome, SourceView,
    TEMPLATE_PREFIX,
};
use crate::globs::{lemma_filter_multiset, lemma_selected_sources, selected, selects};
use crate::order::{ascending, lemma_text_lt_asymmetric, lemma_text_lt_irreflexive, text_le, text_lt};
use crate::parser::{idle, lemma_parse_fails, missing_start_def, run, ParserState, Scan};
use crate::text::{content_lines, is_word, lemma_marker_id_is_word, marker_id};

verus! {

/// The number of marker lines for `id` among `lines`.
pub open spec fn sightings(lines: Seq<Seq<char>>, id: Seq<char>) -> nat
    decreases lines.len(),
{
    if lines.len() == 0 {
        0
    } else if marker_id(lines.last()) == Some(id) {
        sightings(lines.drop_last(), id) + 1
    } else {
        sightings(lines.drop_last(), id)
    }
}

/// The index of the last marker line among `lines`, or -1 where there is none.
pub open spec fn last_marker(lines: Seq<Seq<char>>) -> int
    decreases lines.len(),
{
    if lines.len() == 0 {
        -1
    } else if marker_id(lines.last()) is Some {
        lines.len() - 1
    } else {
        last_marker(lines.drop_last())
    }
}

/// The number of lines from index `from` on that come before the next marker line.
pub open spec fn body_len(lines: Seq<Seq<char>>, from: int) -> nat
    decreases lines.len() - from,
{
    if from < 0 || from >= lines.len() || marker_id(lines[from]) is Some {
        0
    } else {
        1 + body_len(lines, from + 1)
    }
}

/// The body lines of the marker line at index `at`: the lines that follow it,
/// up to the next marker line or to the end.
pub open spec fn body_lines(lines: Seq<Seq<char>>, at: int) -> Seq<Seq<char>> {
    lines.subrange(at + 1, at + 1 + body_len(lines, at + 1))
}

/// `path`, `count` times.
pub open spec fn repeated(path: Seq<char>, count: nat) -> Seq<Seq<char>> {
    Seq::new(count, |i: int| path)
}

/// The record of `id` in `components`; empty where the table does not hold `id`.
pub open spec fn record_in(components: Map<Seq<char>, ComponentView>, id: Seq<char>) -> Seq<Seq<char>> {
    if components.contains_key(id) {
        components[id].defined_in
    } else {
        Seq::empty()
    }
}

/// A component has a sighting exactly when one of the lines is a marker line for it.
pub proof fn lemma_sightings(lines: Seq<Seq<char>>, id: Seq<char>)
    ensures
        sightings(lines, id) > 0 <==> exists|k: int| 0 <= k < lines.len() && marker_id(#[trigger] lines[k]) == Some(id),
    decreases lines.len(),
{
    if lines.len() > 0 {
        let init = lines.drop_last();
        lemma_sightings(init, id);
        if sightings(lines, id) > 0 {
            if marker_id(lines.last()) == Some(id) {
                assert(marker_id(lines[lines.len() - 1]) == Some(id));
            } else {
                let k = choose|k: int| 0 <= k < init.len() && marker_id(#[trigger] init[k]) == Some(id);
                assert(marker_id(lines[k]) == Some(id));
            }
        }
        if exists|k: int| 0 <= k < lines.len() && marker_id(#[trigger] lines[k]) == Some(id) {
            let k = choose|k: int| 0 <= k < lines.len() && marker_id(#[trigger] lines[k]) == Some(id);
            if k < lines.len() - 1 {
                assert(marker_id(init[k]) == Some(id));
            }
        }
    }
}

/// Two marker lines for one component are two sightings.
pub proof fn lemma_two_sightings(lines: Seq<Seq<char>>, id: Seq<char>, j: int, k: int)
    requires
        0 <= j < k < lines.len(),
        marker_id(lines[j]) == Some(id),
        marker_id(lines[k]) == Some(id),
    ensures
        sightings(lines, id) >= 2,
    decreases lines.len(),
{
    let init = lines.drop_last();
    if k == lines.len() - 1 {
        lemma_sightings(init, id);
        assert(marker_id(init[j]) == Some(id));
    } else {
        assert(init[j] == lines[j]);
        assert(init[k] == lines[k]);
        lemma_two_sightings(init, id, j, k);
    }
}

/// The last marker line is a marker line, and no marker line follows it.
pub proof fn lemma_last_marker(lines: Seq<Seq<char>>)
    ensures
        -1 <= last_marker(lines) < lines.len(),
        last_marker(lines) >= 0 ==> marker_id(lines[last_marker(lines)]) is Some,
        forall|k: int| last_marker(lines) < k < lines.len() ==> marker_id(#[trigger] lines[k]) is None,
    decreases lines.len(),
{
    if lines.len() > 0 && marker_id(lines.last()) is None {
        let init = lines.drop_last();
        lemma_last_marker(init);
        assert forall|k: int| last_marker(lines) < k < lines.len() implies marker_id(#[trigger] lines[k]) is None by {
            if k < lines.len() - 1 {
                assert(init[k] == lines[k]);
            }
        }
    }
}

/// A body ends at the next marker line or at the end, and holds no marker line.
pub proof fn lemma_body_len(lines: Seq<Seq<char>>, from: int)
    requires
        0 <= from <= lines.len(),
    ensures
        from + body_len(lines, from) <= lines.len(),
        from + body_len(lines, from) < lines.len() ==> marker_id(lines[from + body_len(lines, from)]) is Some,
        forall|k: int| from <= k < from + body_len(lines, from) ==> marker_id(#[trigger] lines[k]) is None,
    decreases lines.len() - from,
{
    if from < lines.len() && marker_id(lines[from]) is None {
        lemma_body_len(lines, from + 1);
    }
}

/// After the lines of a source the component of its last marker line is
/// open; the parser is idle only if there was no line at all.
pub proof fn lemma_run_state(components: Map<Seq<char>, ComponentView>, path: Seq<char>, lines: Seq<Seq<char>>)
    requires
        run(idle(components), path, lines) is Some,
    ensures
        lines.len() == 0 ==> run(idle(components), path, lines)->0.state is Idle,
        lines.len() > 0 ==> last_marker(lines) >= 0 && run(idle(components), path, lines)->0.state
            == ParserState::InComponent(marker_id(lines[last_marker(lines)])->0),
    decreases lines.len(),
{
    if lines.len() > 0 {
        let init = lines.drop_last();
        lemma_run_state(components, path, init);
        lemma_last_marker(init);
        if marker_id(lines.last()) is None && init.len() > 0 {
            assert(init[last_marker(init)] == lines[last_marker(init)]);
        }
    }
}

/// What one source does to the entry of one component: the table holds the
/// component if it held it or the source has a marker line for it; without
/// such a line the entry is as it was; and the record grows by the path of
/// the source, once for every marker line.
pub proof fn lemma_run_entry(
    components: Map<Seq<char>, ComponentView>,
    path: Seq<char>,
    lines: Seq<Seq<char>>,
    id: Seq<char>,
)
    requires
        run(idle(components), path, lines) is Some,
    ensures
        run(idle(components), path, lines)->0.components.contains_key(id) <==> components.contains_key(id)
            || sightings(lines, id) > 0,
        sightings(lines, id) == 0 && components.contains_key(id) ==> run(
            idle(components),
            path,
            lines,
        )->0.components[id] == components[id],
        record_in(run(idle(components), path, lines)->0.components, id) == record_in(components, id)
            + repeated(path, sightings(lines, id)),
    decreases lines.len(),
{
    if lines.len() == 0 {
        assert(record_in(components, id) + repeated(path, 0) =~= record_in(components, id));
    } else {
        let init = lines.drop_last();
        let before = run(idle(components), path, init)->0;
        let after = run(idle(components), path, lines)->0;
        lemma_run_entry(components, path, init, id);
        let seen = sightings(init, id);
        match marker_id(lines.last()) {
            Some(m) => {
                if m == id {
                    assert(repeated(path, seen).push(path) =~= repeated(path, seen + 1));
                    assert(record_in(after.components, id) =~= record_in(before.components, id).push(path));
                    assert(record_in(after.components, id) =~= record_in(components, id) + repeated(
                        path,
                        seen + 1,
                    ));
                }
            },
            None => {
                lemma_run_state(components, path, init);
                lemma_last_marker(init);
                let open = marker_id(init[last_marker(init)])->0;
                assert(marker_id(init[last_marker(init)]) == Some(open));
                lemma_sightings(init, open);
                lemma_run_entry(components, path, init, open);
                assert(before.components.contains_key(open));
            },
        }
    }
}

/// The body of a component after one source that has a marker line for it:
/// the body lines of its last marker line, joined with nothing in between.
pub proof fn lemma_run_contents(
    components: Map<Seq<char>, ComponentView>,
    path: Seq<char>,
    lines: Seq<Seq<char>>,
    at: int,
    id: Seq<char>,
)
    requires
        run(idle(components), path, lines) is Some,
        0 <= at < lines.len(),
        marker_id(lines[at]) == Some(id),
        forall|k: int| at < k < lines.len() ==> marker_id(#[trigger] lines[k]) != Some(id),
    ensures
        run(idle(components), path, lines)->0.components.contains_key(id),
        run(idle(components), path, lines)->0.components[id].contents == body_lines(lines, at).flatten(),
    decreases lines.len(),
{
    let init = lines.drop_last();
    let n = lines.len();
    let before = run(idle(components), path, init)->0;
    let after = run(idle(components), path, lines)->0;
    lemma_body_len(lines, at + 1);
    if at == n - 1 {
        assert(body_lines(lines, at) =~= Seq::<Seq<char>>::empty());
    } else {
        assert(init[at] == lines[at]);
        assert forall|k: int| at < k < init.len() implies marker_id(#[trigger] init[k]) != Some(id) by {
            assert(init[k] == lines[k]);
        }
        lemma_run_contents(components, path, init, at, id);
        lemma_body_len(init, at + 1);
        lemma_last_marker(init);
        lemma_run_state(components, path, init);
        let end_before = at + 1 + body_len(init, at + 1);
        let end = at + 1 + body_len(lines, at + 1);
        assert forall|k: int| 0 <= k < n - 1 implies init[k] == lines[k] by {}
        if end_before < n - 1 {
            assert(marker_id(init[end_before]) is Some);
            assert(marker_id(lines[end_before]) is Some);
            assert(end == end_before) by {
                if end < end_before {
                    assert(marker_id(lines[end]) is Some);
                    assert(marker_id(init[end]) is None);
                }
                if end > end_before {
                    assert(marker_id(lines[end_before]) is None);
                }
            }
            assert(body_lines(lines, at) =~= body_lines(init, at));
            let last = last_marker(init);
            assert(last >= end_before) by {
                if last < end_before {
                    assert(marker_id(init[end_before]) is None);
                }
            }
            assert(marker_id(init[last]) != Some(id)) by {
                assert(init[last] == lines[last]);
            }
        } else {
            let last = last_marker(init);
            assert(last == at) by {
                if last < at {
                    assert(marker_id(init[at]) is None);
                }
                if last > at {
                    assert(marker_id(init[last]) is None);
                }
            }
            if marker_id(lines.last()) is Some {
                assert(marker_id(lines[n - 1]) is Some);
                assert(end == n - 1) by {
                    if end < n - 1 {
                        assert(marker_id(lines[end]) is Some);
                        assert(marker_id(init[end]) is None);
                    }
                    if end > n - 1 {
                        assert(marker_id(lines[n - 1]) is None);
                    }
                }
                assert(body_lines(lines, at) =~= body_lines(init, at));
            } else {
                assert(end == n) by {
                    if end < n - 1 {
                        assert(marker_id(lines[end]) is Some);
                        assert(marker_id(init[end]) is None);
                    }
                    if end == n - 1 {
                        assert(marker_id(lines[end]) is Some);
                    }
                }
                assert(body_lines(lines, at) =~= body_lines(init, at).push(lines.last()));
                body_lines(init, at).lemma_flatten_push(lines.last());
            }
        }
    }
}

/// The source at index `f` has at line `at` a marker line for `id`. Lines
/// are counted behind the whitespace that the source starts with.
pub open spec fn defines(sources: Seq<SourceView>, f: int, at: int, id: Seq<char>) -> bool {
    &&& 0 <= f < sources.len()
    &&& 0 <= at < content_lines(sources[f].text).len()
    &&& marker_id(content_lines(sources[f].text)[at]) == Some(id)
}

/// The number of marker lines for `id` in all of `sources`.
pub open spec fn total_sightings(sources: Seq<SourceView>, id: Seq<char>) -> nat
    decreases sources.len(),
{
    if sources.len() == 0 {
        0
    } else {
        total_sightings(sources.drop_last(), id) + sightings(content_lines(sources.last().text), id)
    }
}

/// The path of the source of every marker line for `id`, in scan order.
pub open spec fn record_of(sources: Seq<SourceView>, id: Seq<char>) -> Seq<Seq<char>>
    decreases sources.len(),
{
    if sources.len() == 0 {
        Seq::empty()
    } else {
        record_of(sources.drop_last(), id) + repeated(
            sources.last().path,
            sightings(content_lines(sources.last().text), id),
        )
    }
}

/// The record has one entry for every marker line.
pub proof fn lemma_record_len(sources: Seq<SourceView>, id: Seq<char>)
    ensures
        record_of(sources, id).len() == total_sightings(sources, id),
    decreases sources.len(),
{
    if sources.len() > 0 {
        lemma_record_len(sources.drop_last(), id);
    }
}

/// A marker line for a component is one sighting at least.
pub proof fn lemma_total_one(sources: Seq<SourceView>, f: int, at: int, id: Seq<char>)
    requires
        defines(sources, f, at, id),
    ensures
        total_sightings(sources, id) >= 1,
        sightings(content_lines(sources[f].text), id) >= 1,
    decreases sources.len(),
{
    lemma_sightings(content_lines(sources[f].text), id);
    if f < sources.len() - 1 {
        assert(sources.drop_last()[f] == sources[f]);
        lemma_total_one(sources.drop_last(), f, at, id);
    }
}

/// Two marker lines for one component are two sightings at least.
pub proof fn lemma_total_two(sources: Seq<SourceView>, f: int, at: int, g: int, k: int, id: Seq<char>)
    requires
        defines(sources, f, at, id),
        defines(sources, g, k, id),
        f != g || at != k,
    ensures
        total_sightings(sources, id) >= 2,
    decreases sources.len(),
{
    let last = sources.len() - 1;
    let init = sources.drop_last();
    let lines = content_lines(sources[last].text);
    if f == last && g == last {
        if at < k {
            lemma_two_sightings(lines, id, at, k);
        } else {
            lemma_two_sightings(lines, id, k, at);
        }
    } else if f == last {
        assert(init[g] == sources[g]);
        lemma_total_one(init, g, k, id);
        lemma_sightings(lines, id);
    } else if g == last {
        assert(init[f] == sources[f]);
        lemma_total_one(init, f, at, id);
        lemma_sightings(lines, id);
    } else {
        assert(init[f] == sources[f]);
        assert(init[g] == sources[g]);
        lemma_total_two(init, f, at, g, k, id);
    }
}

/// Where there is a sighting there is a marker line.
pub proof fn lemma_total_positive(sources: Seq<SourceView>, id: Seq<char>) -> (place: (int, int))
    requires
        total_sightings(sources, id) > 0,
    ensures
        defines(sources, place.0, place.1, id),
    decreases sources.len(),
{
    let last = sources.len() - 1;
    let lines = content_lines(sources[last].text);
    if sightings(lines, id) > 0 {
        lemma_sightings(lines, id);
        let at = choose|at: int| 0 <= at < lines.len() && marker_id(#[trigger] lines[at]) == Some(id);
        (last, at)
    } else {
        let place = lemma_total_positive(sources.drop_last(), id);
        assert(sources.drop_last()[place.0] == sources[place.0]);
        place
    }
}

/// After a scan the table holds exactly the components that have a marker
/// line in some source, and the record of each names the source of every one
/// of its marker lines, in scan order.
pub proof fn lemma_scan_record(sources: Seq<SourceView>, id: Seq<char>)
    requires
        scan(Map::empty(), sources) is Ok,
    ensures
        scan(Map::empty(), sources)->Ok_0.contains_key(id) <==> total_sightings(sources, id) > 0,
        record_in(scan(Map::empty(), sources)->Ok_0, id) == record_of(sources, id),
        record_of(sources, id).len() == total_sightings(sources, id),
    decreases sources.len(),
{
    lemma_record_len(sources, id);
    if sources.len() > 0 {
        let init = sources.drop_last();
        lemma_scan_record(init, id);
        let before = scan(Map::empty(), init)->Ok_0;
        lemma_run_entry(before, sources.last().path, content_lines(sources.last().text), id);
    }
}

/// The last definition decides. Where the marker line at line `at` of the
/// source `f` is the last one for `id` in scan order, the body of `id` after
/// the scan is made of the body lines of that marker line, joined with
/// nothing in between.
pub proof fn lemma_last_definition_wins(sources: Seq<SourceView>, f: int, at: int, id: Seq<char>)
    requires
        scan(Map::empty(), sources) is Ok,
        defines(sources, f, at, id),
        forall|g: int, k: int| #[trigger] defines(sources, g, k, id) ==> g < f || (g == f && k <= at),
    ensures
        scan(Map::empty(), sources)->Ok_0.contains_key(id),
        scan(Map::empty(), sources)->Ok_0[id].contents == body_lines(
            content_lines(sources[f].text),
            at,
        ).flatten(),
    decreases sources.len(),
{
    let last = sources.len() - 1;
    let init = sources.drop_last();
    let before = scan(Map::empty(), init)->Ok_0;
    let lines = content_lines(sources[last].text);
    if f == last {
        assert forall|k: int| at < k < lines.len() implies marker_id(#[trigger] lines[k]) != Some(id) by {
            if marker_id(lines[k]) == Some(id) {
                assert(defines(sources, f, k, id));
            }
        }
        lemma_run_contents(before, sources[last].path, lines, at, id);
    } else {
        assert(init[f] == sources[f]);
        assert forall|g: int, k: int| #[trigger] defines(init, g, k, id) implies g < f || (g == f && k
            <= at) by {
            assert(init[g] == sources[g]);
            assert(defines(sources, g, k, id));
        }
        lemma_last_definition_wins(init, f, at, id);
        lemma_sightings(lines, id);
        if sightings(lines, id) > 0 {
            let k = choose|k: int| 0 <= k < lines.len() && marker_id(#[trigger] lines[k]) == Some(id);
            assert(defines(sources, last, k, id));
        }
        lemma_run_entry(before, sources[last].path, lines, id);
    }
}

/// The record of a component with a single marker line is the path of the source of that line.
pub proof fn lemma_record_single(sources: Seq<SourceView>, f: int, at: int, id: Seq<char>)
    requires
        defines(sources, f, at, id),
        total_sightings(sources, id) == 1,
    ensures
        record_of(sources, id) == seq![sources[f].path],
    decreases sources.len(),
{
    let last = sources.len() - 1;
    let init = sources.drop_last();
    lemma_total_one(sources, f, at, id);
    if f == last {
        lemma_record_len(init, id);
        assert(record_of(sources, id) =~= seq![sources[f].path]);
    } else {
        assert(init[f] == sources[f]);
        lemma_total_one(init, f, at, id);
        lemma_record_single(init, f, at, id);
        assert(record_of(sources, id) =~= seq![sources[f].path]);
    }
}

/// A component that is not in conflict is defined by one marker line in one
/// source: its record holds the path of that source and nothing else, and its
/// body is made of the body lines of that marker line, joined with nothing in
/// between.
pub proof fn lemma_single_definition(sources: Seq<SourceView>, id: Seq<char>) -> (place: (int, int))
    requires
        scan(Map::empty(), sources) is Ok,
        scan(Map::empty(), sources)->Ok_0.contains_key(id),
        scan(Map::empty(), sources)->Ok_0[id].defined_in.len() <= 1,
    ensures
        defines(sources, place.0, place.1, id),
        forall|g: int, k: int| #[trigger] defines(sources, g, k, id) ==> g == place.0 && k == place.1,
        scan(Map::empty(), sources)->Ok_0[id].defined_in == seq![sources[place.0].path],
        scan(Map::empty(), sources)->Ok_0[id].contents == body_lines(
            content_lines(sources[place.0].text),
            place.1,
        ).flatten(),
{
    lemma_scan_record(sources, id);
    let place = lemma_total_positive(sources, id);
    assert forall|g: int, k: int| #[trigger] defines(sources, g, k, id) implies g == place.0 && k
        == place.1 by {
        if g != place.0 || k != place.1 {
            lemma_total_two(sources, place.0, place.1, g, k, id);
        }
    }
    lemma_record_single(sources, place.0, place.1, id);
    lemma_last_definition_wins(sources, place.0, place.1, id);
    place
}

/// The identifiers of the table that a parser leaves can be listed in
/// ascending order, if those of the table it started on can.
pub proof fn lemma_run_listed(scan: Scan, path: Seq<char>, lines: Seq<Seq<char>>, ids: Seq<Seq<char>>) -> (after:
    Seq<Seq<char>>)
    requires
        run(scan, path, lines) is Some,
        lists(ids, scan.components),
    ensures
        lists(after, run(scan, path, lines)->0.components),
    decreases lines.len(),
{
    if lines.len() == 0 {
        ids
    } else {
        let before_ids = lemma_run_listed(scan, path, lines.drop_last(), ids);
        let before = run(scan, path, lines.drop_last())->0;
        match marker_id(lines.last()) {
            Some(id) => lemma_lists_insert(
                before_ids,
                before.components,
                id,
                opened(before.components, id, path),
            ),
            None => match before.state {
                ParserState::InComponent(id) => lemma_lists_insert(
                    before_ids,
                    before.components,
                    id,
                    extended(before.components[id], lines.last()),
                ),
                ParserState::Idle => before_ids,
            },
        }
    }
}

/// The identifiers of the table after a scan can be listed in ascending order.
pub proof fn lemma_scan_listed(sources: Seq<SourceView>)
    requires
        scan(Map::empty(), sources) is Ok,
    ensures
        lists(sorted_ids(scan(Map::empty(), sources)->Ok_0), scan(Map::empty(), sources)->Ok_0),
    decreases sources.len(),
{
    let components = scan(Map::empty(), sources)->Ok_0;
    if sources.len() == 0 {
        assert(lists(Seq::<Seq<char>>::empty(), components));
    } else {
        let init = sources.drop_last();
        lemma_scan_listed(init);
        let before = scan(Map::empty(), init)->Ok_0;
        let ids = lemma_run_listed(
            idle(before),
            sources.last().path,
            content_lines(sources.last().text),
            sorted_ids(before),
        );
        assert(lists(ids, components));
    }
}

/// Artifacts with the same name belong to the same component.
pub proof fn lemma_artifact_name_decides(a: Seq<char>, b: Seq<char>, x: ComponentView, y: ComponentView)
    requires
        artifact_of(a, x).file_name == artifact_of(b, y).file_name,
    ensures
        a == b,
{
    let prefix = TEMPLATE_PREFIX@;
    assert((prefix + a).subrange(prefix.len() as int, (prefix + a).len() as int) =~= a);
    assert((prefix + b).subrange(prefix.len() as int, (prefix + b).len() as int) =~= b);
}

/// One artifact for each component. After a scan the identifiers of the
/// table are listed each once, and the artifacts are those of the components
/// in that order; so every component has its artifact, every artifact is that
/// of a component, and no two artifacts bear the same name.
pub proof fn lemma_one_artifact_per_component(sources: Seq<SourceView>)
    requires
        scan(Map::empty(), sources) is Ok,
    ensures
        lists(sorted_ids(scan(Map::empty(), sources)->Ok_0), scan(Map::empty(), sources)->Ok_0),
        artifacts_of(scan(Map::empty(), sources)->Ok_0).len() == sorted_ids(
            scan(Map::empty(), sources)->Ok_0,
        ).len(),
        forall|k: int|
            0 <= k < sorted_ids(scan(Map::empty(), sources)->Ok_0).len() ==> #[trigger] artifacts_of(
                scan(Map::empty(), sources)->Ok_0,
            )[k] == artifact_of(
                sorted_ids(scan(Map::empty(), sources)->Ok_0)[k],
                scan(Map::empty(), sources)->Ok_0[sorted_ids(scan(Map::empty(), sources)->Ok_0)[k]],
            ),
        forall|j: int, k: int|
            0 <= j < k < artifacts_of(scan(Map::empty(), sources)->Ok_0).len() ==> (#[trigger] artifacts_of(
                scan(Map::empty(), sources)->Ok_0,
            )[j]).file_name != (#[trigger] artifacts_of(scan(Map::empty(), sources)->Ok_0)[k]).file_name,
{
    let components = scan(Map::empty(), sources)->Ok_0;
    let files = artifacts_of(components);
    let ids = sorted_ids(components);
    lemma_scan_listed(sources);
    assert forall|j: int, k: int| 0 <= j < k < files.len() implies (#[trigger] files[j]).file_name != (
    #[trigger] files[k]).file_name by {
        assert(text_lt(ids[j], ids[k]));
        lemma_text_lt_irreflexive(ids[j]);
        if files[j].file_name == files[k].file_name {
            lemma_artifact_name_decides(ids[j], ids[k], components[ids[j]], components[ids[k]]);
        }
    }
}

/// Text order is antisymmetric.
proof fn lemma_text_le_antisymmetric(a: Seq<char>, b: Seq<char>)
    requires
        text_le(a, b),
        text_le(b, a),
    ensures
        a == b,
{
    if a != b {
        lemma_text_lt_asymmetric(a, b);
    }
}

/// The texts of a multiset can be put in ascending order in one way only.
pub proof fn lemma_ascending_unique(a: Seq<Seq<char>>, b: Seq<Seq<char>>)
    requires
        ascending(a),
        ascending(b),
        a.to_multiset() == b.to_multiset(),
    ensures
        a == b,
    decreases a.len(),
{
    broadcast use vstd::seq_lib::group_to_multiset_ensures;

    a.to_multiset_ensures();
    b.to_multiset_ensures();
    assert(a.len() == b.len());
    if a.len() == 0 {
        assert(a =~= b);
    } else {
        assert(a.contains(a[0]));
        assert(b.to_multiset().count(a[0]) > 0);
        assert(b.contains(a[0]));
        let j = b.index_of(a[0]);
        assert(b.contains(b[0]));
        assert(a.to_multiset().count(b[0]) > 0);
        assert(a.contains(b[0]));
        let i = a.index_of(b[0]);
        assert(text_le(b[0], a[0])) by {
            if j > 0 {
                assert(text_le(b[0], b[j]));
            }
        }
        assert(text_le(a[0], b[0])) by {
            if i > 0 {
                assert(text_le(a[0], a[i]));
            }
        }
        lemma_text_le_antisymmetric(a[0], b[0]);
        let a1 = a.remove(0);
        let b1 = b.remove(0);
        assert(a1.to_multiset() == b1.to_multiset());
        assert forall|i: int, j: int| 0 <= i < j < a1.len() implies text_le(#[trigger] a1[i], #[trigger] a1[j]) by {
            assert(text_le(a[i + 1], a[j + 1]));
        }
        assert forall|i: int, j: int| 0 <= i < j < b1.len() implies text_le(#[trigger] b1[i], #[trigger] b1[j]) by {
            assert(text_le(b[i + 1], b[j + 1]));
        }
        lemma_ascending_unique(a1, b1);
        assert(a =~= seq![a[0]] + a1);
        assert(b =~= seq![b[0]] + b1);
    }
}

/// The sources at `paths`, in this order, where `read` gives the text found at a path.
pub open spec fn sources_at(paths: Seq<Seq<char>>, read: spec_fn(Seq<char>) -> Seq<char>) -> Seq<SourceView> {
    paths.map_values(|path: Seq<char>| SourceView { path, text: read(path) })
}

/// Extraction is repeatable. Two runs over the same paths, found in any
/// order, with the same patterns, the same texts and the same policy parse
/// the same sources in the same order and have the same outcome.
pub proof fn lemma_extraction_repeatable(
    patterns: Seq<Seq<char>>,
    read: spec_fn(Seq<char>) -> Seq<char>,
    allow_redefinition: bool,
    paths: Seq<Seq<char>>,
    other_paths: Seq<Seq<char>>,
    first: Seq<Seq<char>>,
    second: Seq<Seq<char>>,
)
    requires
        paths.to_multiset() == other_paths.to_multiset(),
        ascending(first),
        first.to_multiset() == selected(patterns, paths).to_multiset(),
        ascending(second),
        second.to_multiset() == selected(patterns, other_paths).to_multiset(),
    ensures
        first == second,
        extraction(sources_at(first, read), allow_redefinition) == extraction(
            sources_at(second, read),
            allow_redefinition,
        ),
{
    lemma_filter_multiset(paths, other_paths, |path: Seq<char>| selects(patterns, path));
    lemma_ascending_unique(first, second);
}

/// Every identifier of the table after a scan is made of word characters, one at least.
pub proof fn lemma_scan_ids_are_words(sources: Seq<SourceView>, id: Seq<char>)
    requires
        scan(Map::empty(), sources) is Ok,
        scan(Map::empty(), sources)->Ok_0.contains_key(id),
    ensures
        id.len() > 0,
        forall|k: int| 0 <= k < id.len() ==> is_word(#[trigger] id[k]),
{
    lemma_scan_record(sources, id);
    let place = lemma_total_positive(sources, id);
    lemma_marker_id_is_word(content_lines(sources[place.0].text)[place.1]);
}

/// A path that the patterns do not select is never parsed: the sources are
/// the same, and so is the outcome, whatever may be read at such a path.
pub proof fn lemma_unselected_never_parsed(
    patterns: Seq<Seq<char>>,
    paths: Seq<Seq<char>>,
    sources: Seq<Seq<char>>,
    read: spec_fn(Seq<char>) -> Seq<char>,
    other_read: spec_fn(Seq<char>) -> Seq<char>,
    allow_redefinition: bool,
)
    requires
        sources.to_multiset() == selected(patterns, paths).to_multiset(),
        forall|path: Seq<char>|
            paths.contains(path) && selects(patterns, path) ==> #[trigger] read(path) == other_read(path),
    ensures
        forall|path: Seq<char>| !selects(patterns, path) ==> !sources.contains(path),
        sources_at(sources, read) == sources_at(sources, other_read),
        extraction(sources_at(sources, read), allow_redefinition) == extraction(
            sources_at(sources, other_read),
            allow_redefinition,
        ),
{
    assert forall|path: Seq<char>| !selects(patterns, path) implies !sources.contains(path) by {
        lemma_selected_sources(patterns, paths, sources, path);
    }
    assert forall|i: int| 0 <= i < sources.len() implies read(sources[i]) == other_read(sources[i]) by {
        assert(sources.contains(sources[i]));
        lemma_selected_sources(patterns, paths, sources, sources[i]);
    }
    assert(sources_at(sources, read) =~= sources_at(sources, other_read));
}

/// Sources that are all valid can be scanned to the end.
pub proof fn lemma_valid_sources_scan(sources: Seq<SourceView>)
    requires
        forall|f: int| 0 <= f < sources.len() ==> !missing_start_def((#[trigger] sources[f]).text),
    ensures
        scan(Map::empty(), sources) is Ok,
    decreases sources.len(),
{
    if sources.len() > 0 {
        let init = sources.drop_last();
        assert forall|f: int| 0 <= f < init.len() implies !missing_start_def((#[trigger] init[f]).text) by {
            assert(init[f] == sources[f]);
        }
        lemma_valid_sources_scan(init);
        assert(!missing_start_def(sources[sources.len() - 1].text));
        lemma_parse_fails(scan(Map::empty(), init)->Ok_0, sources.last().path, sources.last().text);
    }
}

/// Valid sources with distinct identifiers give their artifacts, whatever
/// the policy: where every source is valid and no component has more than
/// one marker line, none is in conflict.
pub proof fn lemma_distinct_ids_give_artifacts(sources: Seq<SourceView>, allow_redefinition: bool)
    requires
        forall|f: int| 0 <= f < sources.len() ==> !missing_start_def((#[trigger] sources[f]).text),
        forall|id: Seq<char>| #[trigger] total_sightings(sources, id) <= 1,
    ensures
        scan(Map::empty(), sources) is Ok,
        !has_conflict(scan(Map::empty(), sources)->Ok_0),
        extraction(sources, allow_redefinition) == Outcome::Artifacts(
            artifacts_of(scan(Map::empty(), sources)->Ok_0),
        ),
{
    lemma_valid_sources_scan(sources);
    let components = scan(Map::empty(), sources)->Ok_0;
    assert forall|id: Seq<char>| components.contains_key(id) implies !in_conflict(
        #[trigger] components[id],
    ) by {
        lemma_scan_record(sources, id);
        assert(total_sightings(sources, id) <= 1);
    }
}

} // verus!
