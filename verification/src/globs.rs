//! The choice of template sources by glob patterns.
//!
//! Parsing the patterns and matching paths against them is the work of the
//! `globset` crate. What it decides is named here and taken on trust; the
//! choosing and the ordering of the paths around it are verified.

use vstd::prelude::*;
use globset::{Glob, GlobSet, GlobSetBuilder};
use crate::error::ExtractError;
use crate::order::{
    ascending, lemma_text_lt_transitive, lemma_text_total, text_before, text_le, text_lt,
};
use crate::text::texts;

verus! {

#[verifier::external_type_specification]
#[verifier::external_body]
pub struct ExGlob(globset::Glob);

#[verifier::external_type_specification]
#[verifier::external_body]
pub struct ExGlobSetBuilder(globset::GlobSetBuilder);

#[verifier::external_type_specification]
#[verifier::external_body]
pub struct ExGlobSet(globset::GlobSet);

#[verifier::external_type_specification]
#[verifier::external_body]
pub struct ExGlobError(globset::Error);

/// Whether `globset` accepts `pattern` as a glob under its default options.
/// Which patterns it accepts is laid down by the crate, for the platform the
/// library is built for.
pub uninterp spec fn glob_parses(pattern: Seq<char>) -> bool;

/// The pattern that a parsed glob was made from.
pub uninterp spec fn glob_pattern(glob: Glob) -> Seq<char>;

/// The patterns of the globs that a builder has been given, in the order of their arrival.
pub uninterp spec fn builder_patterns(builder: GlobSetBuilder) -> Seq<Seq<char>>;

/// The patterns of the globs that a set was built from, each at its sequence number.
pub uninterp spec fn set_patterns(set: GlobSet) -> Seq<Seq<char>>;

/// Whether `globset` can compile globs parsed from `patterns` into one set.
pub uninterp spec fn set_compiles(patterns: Seq<Seq<char>>) -> bool;

/// The sequence numbers of the globs, among those parsed from `patterns`,
/// that `globset` finds to match `path`. What matches is laid down by the
/// crate, for the platform the library is built for: where the backslash
/// separates the parts of a path it is read as a slash, in the pattern and in
/// the path.
pub uninterp spec fn matching_globs(patterns: Seq<Seq<char>>, path: Seq<char>) -> Seq<usize>;

/// `Glob::new`: parses `pattern` under the default options. It succeeds on
/// the patterns that the crate accepts, and the glob remembers its pattern.
#[verifier::external_body]
fn new_glob(pattern: &str) -> (parsed: Result<Glob, globset::Error>)
    ensures
        parsed is Ok <==> glob_parses(pattern@),
        parsed matches Ok(glob) ==> glob_pattern(glob) == pattern@,
{
    Glob::new(pattern)
}

/// `GlobSetBuilder::new`: a builder without any glob.
#[verifier::external_body]
fn new_builder() -> (builder: GlobSetBuilder)
    ensures
        builder_patterns(builder) == Seq::<Seq<char>>::empty(),
{
    GlobSetBuilder::new()
}

/// `GlobSetBuilder::add`: the glob is put behind those that the builder holds.
#[verifier::external_body]
fn add_glob(builder: &mut GlobSetBuilder, glob: Glob)
    ensures
        builder_patterns(*final(builder)) == builder_patterns(*old(builder)).push(glob_pattern(glob)),
{
    builder.add(glob);
}

/// `GlobSetBuilder::build`: compiles the globs of the builder into a set,
/// where the crate can; the set holds them under the numbers of their
/// arrival. A builder without any glob always builds.
#[verifier::external_body]
fn build_set(builder: &GlobSetBuilder) -> (built: Result<GlobSet, globset::Error>)
    ensures
        built is Ok <==> set_compiles(builder_patterns(*builder)),
        built matches Ok(set) ==> set_patterns(set) == builder_patterns(*builder),
        builder_patterns(*builder).len() == 0 ==> built is Ok,
{
    builder.build()
}

/// `GlobSet::matches`: the sequence number of every glob of the set that
/// matches `path`, each once, in ascending order. A set without any glob
/// matches nothing.
#[verifier::external_body]
fn matches_of(set: &GlobSet, path: &str) -> (hits: Vec<usize>)
    ensures
        hits@ == matching_globs(set_patterns(*set), path@),
        set_patterns(*set).len() == 0 ==> hits@.len() == 0,
        forall|i: int| 0 <= i < hits@.len() ==> (#[trigger] hits@[i]) < set_patterns(*set).len(),
        forall|i: int, j: int| 0 <= i < j < hits@.len() ==> (#[trigger] hits@[i]) < (#[trigger] hits@[j]),
{
    set.matches(path)
}

/// Every pattern parses as a glob, and together they compile into a set.
pub open spec fn patterns_accepted(patterns: Seq<Seq<char>>) -> bool {
    &&& forall|i: int| 0 <= i < patterns.len() ==> glob_parses(#[trigger] patterns[i])
    &&& set_compiles(patterns)
}

/// A path is selected when at least one of the patterns matches it.
pub open spec fn selects(patterns: Seq<Seq<char>>, path: Seq<char>) -> bool {
    matching_globs(patterns, path).len() > 0
}

/// Those of `paths` that `patterns` select, in the order of `paths`.
pub open spec fn selected(patterns: Seq<Seq<char>>, paths: Seq<Seq<char>>) -> Seq<Seq<char>> {
    paths.filter(|path: Seq<char>| selects(patterns, path))
}

/// A set of glob patterns, compiled for matching.
///
/// Only [`build_globset`] makes one, so every glob of the set was parsed
/// under the default options and the patterns say all there is to it.
#[derive(Debug)]
pub struct TemplateGlobs {
    patterns: Vec<String>,
    set: GlobSet,
}

impl View for TemplateGlobs {
    type V = Seq<Seq<char>>;

    /// The patterns, as they were given.
    closed spec fn view(&self) -> Seq<Seq<char>> {
        texts(self.patterns@)
    }
}

impl TemplateGlobs {
    #[verifier::type_invariant]
    spec fn compiled_from_patterns(self) -> bool {
        set_patterns(self.set) == texts(self.patterns@)
    }

    /// The patterns, as they were given.
    pub fn patterns(&self) -> (patterns: &Vec<String>)
        ensures
            texts(patterns@) == self@,
    {
        &self.patterns
    }

    /// Whether at least one of the patterns matches `path`. Without any
    /// pattern no path is matched.
    pub fn is_match(&self, path: &str) -> (hit: bool)
        ensures
            hit == selects(self@, path@),
            self@.len() == 0 ==> !hit,
    {
        proof {
            use_type_invariant(self);
        }
        matches_of(&self.set, path).len() > 0
    }
}

/// Compiles `glob_strings` into one set of globs.
///
/// It succeeds exactly when every pattern parses and the set compiles, as
/// it always does without any pattern; every failure is a `Globset` error.
pub fn build_globset(glob_strings: Vec<String>) -> (built: Result<TemplateGlobs, ExtractError>)
    ensures
        built is Ok <==> patterns_accepted(texts(glob_strings@)),
        glob_strings@.len() == 0 ==> built is Ok,
        match built {
            Ok(globs) => globs@ == texts(glob_strings@),
            Err(ExtractError::Globset(_)) => true,
            Err(_) => false,
        },
{
    let mut builder = new_builder();
    let ghost patterns = texts(glob_strings@);
    let mut i: usize = 0;
    while i < glob_strings.len()
        invariant
            i <= glob_strings.len(),
            patterns == texts(glob_strings@),
            builder_patterns(builder) == patterns.take(i as int),
            forall|k: int| 0 <= k < i ==> glob_parses(#[trigger] patterns[k]),
        decreases glob_strings.len() - i,
    {
        match new_glob(glob_strings[i].as_str()) {
            Ok(glob) => {
                add_glob(&mut builder, glob);
                assert(patterns.take(i + 1) =~= patterns.take(i as int).push(patterns[i as int]));
            },
            Err(error) => {
                assert(!glob_parses(patterns[i as int]));
                return Err(ExtractError::Globset(error));
            },
        }
        i += 1;
    }
    assert(patterns.take(glob_strings.len() as int) =~= patterns);
    match build_set(&builder) {
        Ok(set) => Ok(TemplateGlobs { patterns: glob_strings, set }),
        Err(error) => Err(ExtractError::Globset(error)),
    }
}

/// A filter keeps every occurrence of what it keeps and none of the rest.
pub proof fn lemma_filter_count(a: Seq<Seq<char>>, keep: spec_fn(Seq<char>) -> bool, x: Seq<char>)
    ensures
        a.filter(keep).to_multiset().count(x) == if keep(x) {
            a.to_multiset().count(x)
        } else {
            0
        },
    decreases a.len(),
{
    broadcast use vstd::seq_lib::group_to_multiset_ensures;

    reveal(Seq::filter);
    if a.len() == 0 {
        assert(a.filter(keep) =~= Seq::<Seq<char>>::empty());
        assert(a.to_multiset().len() == 0);
        assert(a.filter(keep).to_multiset().len() == 0);
    } else {
        lemma_filter_count(a.drop_last(), keep, x);
        assert(a =~= a.drop_last().push(a.last()));
    }
}

/// Sequences with the same elements, each as often, keep the same elements under a filter.
pub proof fn lemma_filter_multiset(a: Seq<Seq<char>>, b: Seq<Seq<char>>, keep: spec_fn(Seq<char>) -> bool)
    requires
        a.to_multiset() == b.to_multiset(),
    ensures
        a.filter(keep).to_multiset() == b.filter(keep).to_multiset(),
{
    assert forall|x: Seq<char>| a.filter(keep).to_multiset().count(x) == b.filter(keep).to_multiset().count(x) by {
        lemma_filter_count(a, keep, x);
        lemma_filter_count(b, keep, x);
    }
    assert(a.filter(keep).to_multiset() =~= b.filter(keep).to_multiset());
}

/// The sources are exactly the paths that the patterns select: a path is
/// among them if and only if it is among `paths` and a pattern matches it.
pub proof fn lemma_selected_sources(
    patterns: Seq<Seq<char>>,
    paths: Seq<Seq<char>>,
    sources: Seq<Seq<char>>,
    path: Seq<char>,
)
    requires
        sources.to_multiset() == selected(patterns, paths).to_multiset(),
    ensures
        sources.contains(path) <==> paths.contains(path) && selects(patterns, path),
{
    broadcast use vstd::seq_lib::group_to_multiset_ensures;

    sources.to_multiset_ensures();
    paths.to_multiset_ensures();
    lemma_filter_count(paths, |p: Seq<char>| selects(patterns, p), path);
}

/// Inserting a text into a sequence adds it to the multiset of the texts.
proof fn lemma_insert_to_multiset(items: Seq<Seq<char>>, at: int, item: Seq<char>)
    requires
        0 <= at <= items.len(),
    ensures
        items.insert(at, item).to_multiset() == items.to_multiset().insert(item),
{
    broadcast use vstd::seq_lib::group_to_multiset_ensures;

    let grown = items.insert(at, item);
    assert(grown.remove(at) =~= items);
    assert(grown[at] == item);
    assert(grown.to_multiset() =~= items.to_multiset().insert(item));
}

/// Puts `path` into the ascending `paths`, behind the paths that do not come after it.
fn insert_ascending(paths: &mut Vec<String>, path: String)
    requires
        ascending(texts(old(paths)@)),
    ensures
        ascending(texts(final(paths)@)),
        texts(final(paths)@).to_multiset() == texts(old(paths)@).to_multiset().insert(path@),
{
    let ghost before = texts(paths@);
    let mut lo: usize = 0;
    let mut hi: usize = paths.len();
    while lo < hi
        invariant
            lo <= hi <= paths.len(),
            before == texts(paths@),
            ascending(before),
            forall|j: int| 0 <= j < lo ==> text_le(#[trigger] before[j], path@),
            forall|j: int| hi <= j < before.len() ==> text_lt(path@, #[trigger] before[j]),
        decreases hi - lo,
    {
        let mid = lo + (hi - lo) / 2;
        assert(paths@[mid as int]@ == before[mid as int]);
        if text_before(path.as_str(), paths[mid].as_str()) {
            assert forall|j: int| mid <= j < before.len() implies text_lt(path@, #[trigger] before[j]) by {
                if mid < j {
                    assert(text_le(before[mid as int], before[j]));
                    if before[mid as int] != before[j] {
                        lemma_text_lt_transitive(path@, before[mid as int], before[j]);
                    }
                }
            }
            hi = mid;
        } else {
            assert forall|j: int| 0 <= j < mid + 1 implies text_le(#[trigger] before[j], path@) by {
                lemma_text_total(before[mid as int], path@);
                if j < mid {
                    assert(text_le(before[j], before[mid as int]));
                    if before[j] != before[mid as int] && before[mid as int] != path@ {
                        lemma_text_lt_transitive(before[j], before[mid as int], path@);
                    }
                }
            }
            lo = mid + 1;
        }
    }
    paths.insert(lo, path);
    proof {
        let after = texts(paths@);
        assert(after =~= before.insert(lo as int, path@));
        lemma_insert_to_multiset(before, lo as int, path@);
        assert forall|i: int, j: int| 0 <= i < j < after.len() implies text_le(
            #[trigger] after[i],
            #[trigger] after[j],
        ) by {
            let a = if i < lo { i } else { i - 1 };
            let b = if j < lo { j } else { j - 1 };
            if i != lo && j != lo {
                assert(text_le(before[a], before[b]));
            } else if i == lo {
                assert(text_lt(path@, before[b]));
            } else {
                assert(text_le(before[a], path@));
            }
        }
    }
}

/// The template sources among `paths`: those that the globs select, and no
/// other path, in ascending order.
///
/// The order of the result is the order in which the sources are to be
/// parsed: where two of them define one component, the later one decides.
/// Without any pattern there is no source.
pub fn select_sources(globs: &TemplateGlobs, paths: &Vec<String>) -> (sources: Vec<String>)
    ensures
        ascending(texts(sources@)),
        texts(sources@).to_multiset() == selected(globs@, texts(paths@)).to_multiset(),
        forall|path: Seq<char>|
            texts(sources@).contains(path) <==> texts(paths@).contains(path) && selects(globs@, path),
        globs@.len() == 0 ==> sources@.len() == 0,
{
    let ghost all = texts(paths@);
    let ghost chosen = |path: Seq<char>| selects(globs@, path);
    let mut sources: Vec<String> = Vec::new();
    let mut i: usize = 0;
    proof {
        reveal(Seq::filter);
        assert(all.take(0) =~= Seq::<Seq<char>>::empty());
        assert(texts(sources@) =~= Seq::<Seq<char>>::empty());
    }
    while i < paths.len()
        invariant
            i <= paths.len(),
            all == texts(paths@),
            chosen == |path: Seq<char>| selects(globs@, path),
            ascending(texts(sources@)),
            texts(sources@).to_multiset() == all.take(i as int).filter(chosen).to_multiset(),
            globs@.len() == 0 ==> sources@.len() == 0,
        decreases paths.len() - i,
    {
        proof {
            reveal(Seq::filter);
            broadcast use vstd::seq_lib::group_to_multiset_ensures;

            assert(all.take(i + 1).drop_last() =~= all.take(i as int));
            assert(all.take(i + 1).last() == paths@[i as int]@);
        }
        if globs.is_match(paths[i].as_str()) {
            insert_ascending(&mut sources, paths[i].clone());
        }
        i += 1;
    }
    proof {
        assert(all.take(paths.len() as int) =~= all);
        assert forall|path: Seq<char>| texts(sources@).contains(path) <==> all.contains(path) && selects(
            globs@,
            path,
        ) by {
            lemma_selected_sources(globs@, all, texts(sources@), path);
        }
    }
    sources
}

} // verus!
