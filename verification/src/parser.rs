//! The line-oriented parser of one template source.
//!
//! The parser is a state machine over the lines of a source. It starts idle;
//! a marker line opens the component it names, and every other line belongs
//! to the body of the component that is open. A body line while the machine
//! is still idle is an error.

use vstd::prelude::*;
use crate::component::{extended, opened, ComponentView, Components};
use crate::error::ExtractError;
use crate::text::{content_lines, content_lines_of, marker_id, marker_of, texts};

verus! {

/// The state of the parser between two lines.
pub enum ParserState {
    /// No marker line has been seen in this source.
    Idle,
    /// The component with this identifier is open.
    InComponent(Seq<char>),
}

/// The parser between two lines: its state, and the table as it stands.
pub struct Scan {
    pub state: ParserState,
    pub components: Map<Seq<char>, ComponentView>,
}

/// One line of the source at `path`: the scan after it, or `None` where the
/// line is a body line that no marker precedes.
pub open spec fn step(scan: Scan, path: Seq<char>, line: Seq<char>) -> Option<Scan> {
    match marker_id(line) {
        Some(id) => Some(
            Scan {
                state: ParserState::InComponent(id),
                components: scan.components.insert(id, opened(scan.components, id, path)),
            },
        ),
        None => match scan.state {
            ParserState::InComponent(id) => Some(
                Scan {
                    state: scan.state,
                    components: scan.components.insert(id, extended(scan.components[id], line)),
                },
            ),
            ParserState::Idle => None,
        },
    }
}

/// The lines of a source in turn; `None` as soon as one of them fails.
pub open spec fn run(scan: Scan, path: Seq<char>, lines: Seq<Seq<char>>) -> Option<Scan>
    decreases lines.len(),
{
    if lines.len() == 0 {
        Some(scan)
    } else {
        match run(scan, path, lines.drop_last()) {
            Some(before) => step(before, path, lines.last()),
            None => None,
        }
    }
}

/// The scan in which the parser starts on a source.
pub open spec fn idle(components: Map<Seq<char>, ComponentView>) -> Scan {
    Scan { state: ParserState::Idle, components }
}

/// The table after the source `text` found at `path` has been parsed into
/// `components`; `None` where the source is invalid.
pub open spec fn parse_source(
    components: Map<Seq<char>, ComponentView>,
    path: Seq<char>,
    text: Seq<char>,
) -> Option<Map<Seq<char>, ComponentView>> {
    match run(idle(components), path, content_lines(text)) {
        Some(scan) => Some(scan.components),
        None => None,
    }
}

/// A source is invalid exactly when something is left of it behind the
/// whitespace it starts with, and the first line of that is no marker line.
pub open spec fn missing_start_def(text: Seq<char>) -> bool {
    content_lines(text).len() > 0 && marker_id(content_lines(text)[0]) is None
}

/// Once a component is open the parser cannot fail, and a component stays open.
pub proof fn lemma_run_in_component(scan: Scan, path: Seq<char>, lines: Seq<Seq<char>>)
    requires
        scan.state is InComponent,
    ensures
        run(scan, path, lines) is Some,
        run(scan, path, lines)->0.state is InComponent,
    decreases lines.len(),
{
    if lines.len() > 0 {
        lemma_run_in_component(scan, path, lines.drop_last());
    }
}

/// The first line decides: a parse that starts idle fails exactly when there
/// is a first line and it is no marker line.
pub proof fn lemma_run_fails(components: Map<Seq<char>, ComponentView>, path: Seq<char>, lines: Seq<Seq<char>>)
    ensures
        run(idle(components), path, lines) is None <==> (lines.len() > 0 && marker_id(lines[0]) is None),
    decreases lines.len(),
{
    let start = idle(components);
    if lines.len() == 1 {
        assert(lines.drop_last().len() == 0);
        assert(run(start, path, lines.drop_last()) == Some(start));
    } else if lines.len() > 1 {
        lemma_run_fails(components, path, lines.drop_last());
        assert(lines.drop_last()[0] == lines[0]);
    }
}

/// A source fails to parse exactly when a body line comes before its first marker line.
pub proof fn lemma_parse_fails(components: Map<Seq<char>, ComponentView>, path: Seq<char>, text: Seq<char>)
    ensures
        parse_source(components, path, text) is None <==> missing_start_def(text),
{
    lemma_run_fails(components, path, content_lines(text));
}

/// Parses the source `source` found at `template_path` into `components`.
///
/// The whitespace that the source starts with is passed over, and with it
/// every line that holds nothing else. Every marker line opens its
/// component: the body is empty again and the path joins the record of the
/// component. Every other line is added to the body of the open component,
/// with nothing in between. A source whose first line behind that whitespace
/// is no marker line is refused, and the table stays as it was.
pub fn parse_template_source(template_path: &str, source: &str, components: &mut Components) -> (result:
    Result<(), ExtractError>)
    requires
        old(components).wf(),
    ensures
        final(components).wf(),
        result is Err <==> missing_start_def(source@),
        match result {
            Ok(_) => parse_source(old(components)@, template_path@, source@) == Some(final(components)@),
            Err(ExtractError::TemplateMissingStartDef(path)) => {
                &&& path@ == template_path@
                &&& *final(components) == *old(components)
            },
            Err(_) => false,
        },
{
    let lines = content_lines_of(source);
    let n = lines.len();
    let ghost content = texts(lines@);
    let ghost start = idle(old(components)@);
    let ghost scan = start;
    proof {
        assert(content.take(0) =~= Seq::<Seq<char>>::empty());
        lemma_parse_fails(old(components)@, template_path@, source@);
    }
    let mut current: Option<usize> = None;
    let mut i: usize = 0;
    while i < n
        invariant
            i <= n == lines.len(),
            content == texts(lines@),
            components.wf(),
            start == idle(old(components)@),
            run(start, template_path@, content.take(i as int)) == Some(scan),
            scan.components == components@,
            match current {
                Some(index) => index < components.ids().len() && scan.state == ParserState::InComponent(
                    components.ids()[index as int],
                ) && components@.contains_key(components.ids()[index as int]),
                None => scan.state is Idle && *components == *old(components) && i == 0,
            },
            parse_source(old(components)@, template_path@, source@) is None <==> missing_start_def(source@),
            content == content_lines(source@),
        decreases n - i,
    {
        let line = lines[i].as_str();
        proof {
            assert(content.take(i + 1).drop_last() =~= content.take(i as int));
            assert(content.take(i + 1).last() == line@);
        }
        match marker_of(line) {
            Some(id) => {
                proof {
                    scan = step(scan, template_path@, line@)->0;
                }
                let index = components.open(id, template_path);
                current = Some(index);
            },
            None => match current {
                Some(index) => {
                    proof {
                        scan = step(scan, template_path@, line@)->0;
                    }
                    components.append(index, line);
                },
                None => {
                    proof {
                        assert(content[0] == line@);
                    }
                    return Err(ExtractError::TemplateMissingStartDef(template_path.to_owned()));
                },
            },
        }
        i += 1;
    }
    proof {
        assert(content.take(n as int) =~= content);
    }
    Ok(())
}

} // verus!
