//! The whole extraction: every source parsed in scan order, the redefinition
//! policy applied, and one artifact made for each component.

use vstd::prelude::*;
use crate::component::{sorted_ids, ComponentView, Components};
use crate::error::ExtractError;
use crate::parser::{parse_source, parse_template_source};
use crate::text::texts;

verus! {

/// What every artifact's file name starts with; the identifier follows.
pub const TEMPLATE_PREFIX: &'static str = "tw_tpl_";

/// One template source: its path relative to the root, and its text.
#[derive(Debug, PartialEq, Eq)]
pub struct TemplateSource {
    pub path: String,
    pub text: String,
}

/// The mathematical value of a [`TemplateSource`].
pub struct SourceView {
    pub path: Seq<char>,
    pub text: Seq<char>,
}

impl View for TemplateSource {
    type V = SourceView;

    open spec fn view(&self) -> SourceView {
        SourceView { path: self.path@, text: self.text@ }
    }
}

/// One file to write: its name inside the output directory, and what it holds.
#[derive(Debug, PartialEq, Eq)]
pub struct Artifact {
    pub file_name: String,
    pub contents: String,
}

/// The mathematical value of an [`Artifact`].
pub struct ArtifactView {
    pub file_name: Seq<char>,
    pub contents: Seq<char>,
}

impl View for Artifact {
    type V = ArtifactView;

    open spec fn view(&self) -> ArtifactView {
        ArtifactView { file_name: self.file_name@, contents: self.contents@ }
    }
}

/// The views of a sequence of sources.
pub open spec fn source_views(sources: Seq<TemplateSource>) -> Seq<SourceView> {
    sources.map_values(|s: TemplateSource| s@)
}

/// The views of a sequence of artifacts.
pub open spec fn artifact_views(artifacts: Seq<Artifact>) -> Seq<ArtifactView> {
    artifacts.map_values(|a: Artifact| a@)
}

/// The table after `sources` have been parsed into `components` one after
/// the other, or the path of the first source that is invalid.
pub open spec fn scan(components: Map<Seq<char>, ComponentView>, sources: Seq<SourceView>) -> Result<
    Map<Seq<char>, ComponentView>,
    Seq<char>,
>
    decreases sources.len(),
{
    if sources.len() == 0 {
        Ok(components)
    } else {
        match scan(components, sources.drop_last()) {
            Ok(before) => match parse_source(before, sources.last().path, sources.last().text) {
                Some(after) => Ok(after),
                None => Err(sources.last().path),
            },
            Err(path) => Err(path),
        }
    }
}

/// A component is in conflict when more than one marker was seen for it.
pub open spec fn in_conflict(component: ComponentView) -> bool {
    component.defined_in.len() > 1
}

/// Some component of the table is in conflict.
pub open spec fn has_conflict(components: Map<Seq<char>, ComponentView>) -> bool {
    exists|id: Seq<char>| components.contains_key(id) && in_conflict(#[trigger] components[id])
}

/// `paths` joined by line feeds.
pub open spec fn joined_paths(paths: Seq<Seq<char>>) -> Seq<char>
    decreases paths.len(),
{
    if paths.len() == 0 {
        Seq::empty()
    } else if paths.len() == 1 {
        paths[0]
    } else {
        joined_paths(paths.drop_last()) + seq!['\n'] + paths.last()
    }
}

/// The part of the report on one component in conflict: a line feed, the
/// identifier, a colon, and on a line each the sources that define it.
pub open spec fn report_entry(id: Seq<char>, component: ComponentView) -> Seq<char> {
    seq!['\n'] + id + seq![':', '\n'] + joined_paths(component.defined_in)
}

/// The report on the components under `ids`, in that order: an entry for each one in conflict.
pub open spec fn report_on(ids: Seq<Seq<char>>, components: Map<Seq<char>, ComponentView>) -> Seq<char>
    decreases ids.len(),
{
    if ids.len() == 0 {
        Seq::empty()
    } else {
        let before = report_on(ids.drop_last(), components);
        if in_conflict(components[ids.last()]) {
            before + report_entry(ids.last(), components[ids.last()])
        } else {
            before
        }
    }
}

/// The report on every component in conflict, in ascending order of the identifiers.
pub open spec fn conflict_report_of(components: Map<Seq<char>, ComponentView>) -> Seq<char> {
    report_on(sorted_ids(components), components)
}

/// The artifact of the component `id`: named by the prefix and the
/// identifier, it holds the body as it is.
pub open spec fn artifact_of(id: Seq<char>, component: ComponentView) -> ArtifactView {
    ArtifactView { file_name: TEMPLATE_PREFIX@ + id, contents: component.contents }
}

/// One artifact for each component, in ascending order of the identifiers.
pub open spec fn artifacts_of(components: Map<Seq<char>, ComponentView>) -> Seq<ArtifactView> {
    sorted_ids(components).map_values(|id: Seq<char>| artifact_of(id, components[id]))
}

/// What an extraction gives: the artifacts to write, or why there are none.
pub enum Outcome {
    Artifacts(Seq<ArtifactView>),
    MissingStartDef(Seq<char>),
    Redefinition(Seq<char>),
}

/// The outcome of extracting `sources`, taken in this order, under the
/// policy `allow_redefinition`.
pub open spec fn extraction(sources: Seq<SourceView>, allow_redefinition: bool) -> Outcome {
    match scan(Map::empty(), sources) {
        Err(path) => Outcome::MissingStartDef(path),
        Ok(components) => if !allow_redefinition && has_conflict(components) {
            Outcome::Redefinition(conflict_report_of(components))
        } else {
            Outcome::Artifacts(artifacts_of(components))
        },
    }
}

/// Once a source is invalid the scan has failed, whatever follows.
pub proof fn lemma_scan_failure_stays(
    components: Map<Seq<char>, ComponentView>,
    sources: Seq<SourceView>,
    k: int,
)
    requires
        0 <= k <= sources.len(),
        scan(components, sources.take(k)) is Err,
    ensures
        scan(components, sources) == scan(components, sources.take(k)),
    decreases sources.len(),
{
    if k == sources.len() {
        assert(sources.take(k) =~= sources);
    } else {
        assert(sources.drop_last().take(k) =~= sources.take(k));
        lemma_scan_failure_stays(components, sources.drop_last(), k);
    }
}

/// `paths` joined by line feeds.
fn join_paths(paths: &Vec<String>) -> (text: String)
    ensures
        text@ == joined_paths(texts(paths@)),
{
    let mut text = String::new();
    let mut i: usize = 0;
    while i < paths.len()
        invariant
            i <= paths.len(),
            text@ == joined_paths(texts(paths@).take(i as int)),
        decreases paths.len() - i,
    {
        proof {
            reveal_strlit("\n");
            assert(texts(paths@).take(i + 1).drop_last() =~= texts(paths@).take(i as int));
            assert("\n"@ =~= seq!['\n']);
        }
        if i > 0 {
            text.append("\n");
        }
        text.append(paths[i].as_str());
        proof {
            assert(text@ =~= joined_paths(texts(paths@).take(i + 1)));
        }
        i += 1;
    }
    proof {
        assert(texts(paths@).take(paths.len() as int) =~= texts(paths@));
    }
    text
}

/// The report on the components that are defined more than once, and
/// whether there is any. Each of them is listed with every source that
/// defines it, the components in ascending order of their identifiers.
pub fn conflict_report(components: &Components) -> (found: (bool, String))
    requires
        components.wf(),
    ensures
        found.0 == has_conflict(components@),
        found.1@ == conflict_report_of(components@),
{
    let n = components.len();
    let mut report = String::new();
    let mut any = false;
    let mut i: usize = 0;
    proof {
        components.lemma_entries();
    }
    let ghost ids = components.ids();
    while i < n
        invariant
            i <= n == ids.len(),
            components.wf(),
            ids == components.ids(),
            ids == sorted_ids(components@),
            forall|k: int|
                0 <= k < ids.len() ==> components@.contains_key(#[trigger] ids[k]) && components@[ids[k]]
                    == components.defs()[k],
            report@ == report_on(ids.take(i as int), components@),
            any == (exists|k: int| 0 <= k < i && in_conflict(components@[#[trigger] ids[k]])),
        decreases n - i,
    {
        let id = components.id_at(i);
        let def = components.definition_at(i);
        proof {
            assert(ids.take(i + 1).drop_last() =~= ids.take(i as int));
            assert(ids.take(i + 1).last() == ids[i as int]);
            assert(def@ == components@[ids[i as int]]);
        }
        if def.defined_in_templates.len() > 1 {
            proof {
                reveal_strlit("\n");
                reveal_strlit(":\n");
                assert("\n"@ =~= seq!['\n']);
                assert(":\n"@ =~= seq![':', '\n']);
            }
            let ghost before = report@;
            report.append("\n");
            report.append(id.as_str());
            report.append(":\n");
            let paths = join_paths(&def.defined_in_templates);
            report.append(paths.as_str());
            proof {
                assert(report@ =~= before + report_entry(ids[i as int], components@[ids[i as int]]));
            }
            any = true;
        }
        i += 1;
    }
    proof {
        assert(ids.take(n as int) =~= ids);
        if has_conflict(components@) {
            let id = choose|id: Seq<char>| components@.contains_key(id) && in_conflict(#[trigger] components@[id]);
            assert(ids.contains(id)) by {
                components.lemma_entries();
            }
            let k = ids.index_of(id);
            assert(in_conflict(components@[ids[k]]));
        }
    }
    (any, report)
}

/// One artifact for each component, in ascending order of the identifiers:
/// its name is the prefix followed by the identifier, its contents are the
/// body of the component, byte for byte.
pub fn artifacts(components: &Components) -> (files: Vec<Artifact>)
    requires
        components.wf(),
    ensures
        artifact_views(files@) == artifacts_of(components@),
{
    let n = components.len();
    let mut files: Vec<Artifact> = Vec::new();
    let mut i: usize = 0;
    proof {
        components.lemma_entries();
    }
    let ghost ids = components.ids();
    while i < n
        invariant
            i <= n == ids.len(),
            components.wf(),
            ids == components.ids(),
            ids == sorted_ids(components@),
            forall|k: int|
                0 <= k < ids.len() ==> components@.contains_key(#[trigger] ids[k]) && components@[ids[k]]
                    == components.defs()[k],
            files.len() == i,
            forall|k: int| 0 <= k < i ==> (#[trigger] files@[k])@ == artifact_of(ids[k], components@[ids[k]]),
        decreases n - i,
    {
        let id = components.id_at(i);
        let def = components.definition_at(i);
        let mut file_name = TEMPLATE_PREFIX.to_owned();
        file_name.append(id.as_str());
        let contents = def.contents.clone();
        files.push(Artifact { file_name, contents });
        i += 1;
    }
    proof {
        assert(artifact_views(files@) =~= artifacts_of(components@));
    }
    files
}

/// Extracts the components of `sources`, taken in the order given.
///
/// Every source is parsed into one table. The first invalid source ends the
/// extraction at once. Unless `allow_redefinition` is set, components that
/// are defined more than once end it after the whole scan, with a report on
/// all of them. Otherwise there is one artifact for each component, and a
/// component that is defined more than once has the body that the last of
/// its markers gave it.
pub fn parse_templates(sources: &Vec<TemplateSource>, allow_redefinition: bool) -> (result: Result<
    Vec<Artifact>,
    ExtractError,
>)
    ensures
        match extraction(source_views(sources@), allow_redefinition) {
            Outcome::Artifacts(files) => result matches Ok(made) && artifact_views(made@) == files,
            Outcome::MissingStartDef(path) => result matches Err(ExtractError::TemplateMissingStartDef(p)) && p@
                == path,
            Outcome::Redefinition(report) => result matches Err(ExtractError::ComponentRedefinition(r)) && r@
                == report,
        },
{
    let mut components = Components::new();
    let ghost all = source_views(sources@);
    let mut i: usize = 0;
    proof {
        assert(all.take(0) =~= Seq::<SourceView>::empty());
    }
    while i < sources.len()
        invariant
            i <= sources.len(),
            all == source_views(sources@),
            components.wf(),
            scan(Map::empty(), all.take(i as int)) == Ok::<Map<Seq<char>, ComponentView>, Seq<char>>(
                components@,
            ),
        decreases sources.len() - i,
    {
        let source = &sources[i];
        proof {
            assert(all.take(i + 1).drop_last() =~= all.take(i as int));
            assert(all.take(i + 1).last() == source@);
        }
        let parsed = parse_template_source(source.path.as_str(), source.text.as_str(), &mut components);
        match parsed {
            Ok(_) => {},
            Err(error) => {
                proof {
                    crate::parser::lemma_parse_fails(
                        scan(Map::empty(), all.take(i as int))->Ok_0,
                        source@.path,
                        source@.text,
                    );
                    lemma_scan_failure_stays(Map::empty(), all, i + 1);
                }
                return Err(error);
            },
        }
        i += 1;
    }
    proof {
        assert(all.take(sources.len() as int) =~= all);
    }
    if allow_redefinition {
        Ok(artifacts(&components))
    } else {
        let (conflict, report) = conflict_report(&components);
        if conflict {
            Err(ExtractError::ComponentRedefinition(report))
        } else {
            Ok(artifacts(&components))
        }
    }
}

} // verus!
