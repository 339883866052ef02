use vstd::prelude::*;
use vstd::string::StrSliceExecFns;
use crate::path::{LexPath, render_path, spec_leaf};

verus! {

/// True for the character that separates path components.
pub fn is_separator(c: char) -> (r: bool)
    ensures
        r == (c == '/'),
{
    c == '/'
}

/// True when the text holds a path separator somewhere.
pub open spec fn has_separator(s: Seq<char>) -> bool {
    exists|i: int| 0 <= i < s.len() && s[i] == '/'
}

/// The text with one leading separator removed, when there is one.
pub open spec fn strip_lead_sep(s: Seq<char>) -> Seq<char> {
    if s.len() > 0 && s[0] == '/' {
        s.drop_first()
    } else {
        s
    }
}

/// A pattern is path-shaped when it holds a separator: it is then matched
/// against a candidate's full relative path.
pub fn is_path_glob(pattern: &str) -> (r: bool)
    ensures
        r == has_separator(pattern@),
{
    let n = pattern.unicode_len();
    let mut i: usize = 0;
    while i < n
        invariant
            i <= n,
            n == pattern@.len(),
            forall|k: int| 0 <= k < i ==> pattern@[k] != '/',
        decreases n - i,
    {
        if is_separator(pattern.get_char(i)) {
            return true;
        }
        i += 1;
    }
    false
}

/// A pattern is leaf-shaped when it holds no separator: it is then matched
/// against a candidate's final component only.
pub fn is_leaf_glob(pattern: &str) -> (r: bool)
    ensures
        r == !has_separator(pattern@),
{
    !is_path_glob(pattern)
}

#[verifier::external_type_specification]
#[verifier::external_body]
pub struct ExGlob(globset::Glob);

#[verifier::external_type_specification]
#[verifier::external_body]
pub struct ExGlobSet(globset::GlobSet);

#[verifier::external_type_specification]
#[verifier::external_body]
pub struct ExGlobSetBuilder(globset::GlobSetBuilder);

/// The pattern text a compiled glob was built from.
pub uninterp spec fn glob_pattern(g: globset::Glob) -> Seq<char>;

/// Whether a pattern text compiles as a glob with literal separators.
pub uninterp spec fn glob_compiles(pattern: Seq<char>) -> bool;

/// The pattern texts a set builder holds so far.
pub uninterp spec fn builder_patterns(b: globset::GlobSetBuilder) -> Seq<Seq<char>>;

/// The pattern texts a compiled set was built from.
pub uninterp spec fn globset_patterns(s: globset::GlobSet) -> Seq<Seq<char>>;

/// Whether a matcher assembles from these pattern texts: a function of
/// the patterns alone.
pub uninterp spec fn globset_builds(patterns: Seq<Seq<char>>) -> bool;

/// Whether any of the patterns matches the candidate text: a function of
/// the patterns and the candidate alone.
pub uninterp spec fn globset_matches(patterns: Seq<Seq<char>>, candidate: Seq<char>) -> bool;

/// Relies on globset::GlobBuilder::build, with literal_separator(true):
/// whether a pattern compiles is decided by its text alone, and the
/// compiled glob remembers exactly that text.
#[verifier::external_body]
fn compile_glob(pattern: &str) -> (r: Option<globset::Glob>)
    ensures
        r is Some <==> glob_compiles(pattern@),
        r is Some ==> glob_pattern(r.unwrap()) == pattern@,
{
    globset::GlobBuilder::new(pattern).literal_separator(true).build().ok()
}

/// Relies on globset::GlobSetBuilder::new: a fresh builder holds no
/// patterns.
#[verifier::external_body]
fn globset_builder_new() -> (r: globset::GlobSetBuilder)
    ensures
        builder_patterns(r) == Seq::<Seq<char>>::empty(),
{
    globset::GlobSetBuilder::new()
}

/// Relies on globset::GlobSetBuilder::add: it appends the glob to the
/// patterns held.
#[verifier::external_body]
fn globset_builder_add(b: &mut globset::GlobSetBuilder, g: globset::Glob)
    ensures
        builder_patterns(*final(b)) == builder_patterns(*old(b)).push(glob_pattern(g)),
{
    b.add(g);
}

/// Relies on globset::GlobSetBuilder::build: whether the matcher
/// assembles is decided by the patterns added alone; on success the
/// compiled set holds exactly those patterns; on failure the error is
/// handed back as text.
#[verifier::external_body]
fn globset_builder_build(b: &globset::GlobSetBuilder) -> (r: Result<globset::GlobSet, String>)
    ensures
        r is Ok <==> globset_builds(builder_patterns(*b)),
        r is Ok ==> globset_patterns(r.unwrap()) == builder_patterns(*b),
{
    match b.build() {
        Ok(s) => Ok(s),
        Err(e) => Err(format!("{}", e)),
    }
}

/// Relies on globset::GlobSet::is_match: the answer is a function of the
/// set's patterns and the candidate text alone.
#[verifier::external_body]
fn globset_is_match(s: &globset::GlobSet, candidate: &str) -> (r: bool)
    ensures
        r == globset_matches(globset_patterns(*s), candidate@),
{
    s.is_match(candidate)
}

/// A filter that matches path-shaped patterns against a candidate's full
/// relative path and leaf-shaped patterns against its final component only.
pub struct ScopedGlobSet {
    path_globs: Option<globset::GlobSet>,
    leaf_globs: Option<globset::GlobSet>,
}

impl ScopedGlobSet {
    /// The patterns matched against the full relative path, when any.
    pub closed spec fn path_pats(&self) -> Option<Seq<Seq<char>>> {
        match self.path_globs {
            Some(g) => Some(globset_patterns(g)),
            None => None,
        }
    }

    /// The patterns matched against the final component, when any.
    pub closed spec fn leaf_pats(&self) -> Option<Seq<Seq<char>>> {
        match self.leaf_globs {
            Some(g) => Some(globset_patterns(g)),
            None => None,
        }
    }
}

/// The filter answers yes when the path-shaped set (when present) matches the
/// full candidate text, or the leaf-shaped set (when present) matches the
/// candidate's final component (when it has one).
pub open spec fn scoped_match(
    path_pats: Option<Seq<Seq<char>>>,
    leaf_pats: Option<Seq<Seq<char>>>,
    full: Seq<char>,
    leaf: Option<Seq<char>>,
) -> bool {
    (path_pats is Some && globset_matches(path_pats.unwrap(), full)) || (leaf_pats is Some
        && leaf is Some && globset_matches(leaf_pats.unwrap(), leaf.unwrap()))
}

impl ScopedGlobSet {
    /// Match a candidate relative path against the filter.
    pub fn is_match(&self, path: &LexPath) -> (r: bool)
        ensures
            r == scoped_match(
                self.path_pats(),
                self.leaf_pats(),
                render_path(path@),
                spec_leaf(path@),
            ),
    {
        if let Some(g) = &self.path_globs {
            let full = path.render();
            if globset_is_match(g, full.as_str()) {
                return true;
            }
        }
        if let Some(g) = &self.leaf_globs {
            if let Some(leaf) = path.leaf() {
                if globset_is_match(g, leaf.as_str()) {
                    return true;
                }
            }
        }
        false
    }
}

/// The texts of a sequence of patterns.
pub open spec fn pats_view(patterns: Seq<String>) -> Seq<Seq<char>> {
    patterns.map_values(|s: String| s@)
}

/// The path-shaped patterns that compile, each with one leading separator
/// stripped, in order.
pub open spec fn valid_path_pats(ps: Seq<Seq<char>>) -> Seq<Seq<char>>
    decreases ps.len(),
{
    if ps.len() == 0 {
        Seq::empty()
    } else {
        let rest = valid_path_pats(ps.drop_last());
        let p = ps.last();
        if has_separator(p) && glob_compiles(strip_lead_sep(p)) {
            rest.push(strip_lead_sep(p))
        } else {
            rest
        }
    }
}

/// The leaf-shaped patterns that compile, in order.
pub open spec fn valid_leaf_pats(ps: Seq<Seq<char>>) -> Seq<Seq<char>>
    decreases ps.len(),
{
    if ps.len() == 0 {
        Seq::empty()
    } else {
        let rest = valid_leaf_pats(ps.drop_last());
        let p = ps.last();
        if !has_separator(p) && glob_compiles(p) {
            rest.push(p)
        } else {
            rest
        }
    }
}

/// The patterns that do not compile (path-shaped ones judged after the
/// strip), in order, as supplied.
pub open spec fn invalid_pats(ps: Seq<Seq<char>>) -> Seq<Seq<char>>
    decreases ps.len(),
{
    if ps.len() == 0 {
        Seq::empty()
    } else {
        let rest = invalid_pats(ps.drop_last());
        let p = ps.last();
        let judged = if has_separator(p) {
            strip_lead_sep(p)
        } else {
            p
        };
        if !glob_compiles(judged) {
            rest.push(p)
        } else {
            rest
        }
    }
}

/// Why a filter could not be built. Either way the invalid patterns that
/// were dropped come along, so the caller can still warn about each.
#[derive(Debug)]
pub enum GlobError {
    /// Every supplied pattern was invalid.
    AllInvalid { rejected: Vec<String> },
    /// The underlying matcher could not be assembled from the valid
    /// patterns; the text says why.
    BuildFailed { message: String, rejected: Vec<String> },
}

/// A built filter, along with the invalid patterns that were dropped.
pub struct BuiltGlobs {
    pub globs: ScopedGlobSet,
    pub rejected: Vec<String>,
}

/// Build a filter from pattern texts. Each pattern holding a separator is
/// matched later against full relative paths (with one leading separator
/// stripped first); each without is matched against final components only.
/// Patterns that fail to compile are dropped and handed back for warning;
/// if every pattern fails, construction fails. With at least one valid
/// pattern, construction succeeds exactly when every non-empty set
/// assembles into a matcher.
pub fn build_globs(patterns: &Vec<String>) -> (r: Result<BuiltGlobs, GlobError>)
    ensures
        (r matches Err(GlobError::AllInvalid { .. }) <==> (valid_path_pats(
            pats_view(patterns@),
        ).len() == 0 && valid_leaf_pats(pats_view(patterns@)).len() == 0)),
        (r is Ok <==> ((valid_path_pats(pats_view(patterns@)).len() > 0 || valid_leaf_pats(
            pats_view(patterns@),
        ).len() > 0) && (valid_path_pats(pats_view(patterns@)).len() > 0 ==> globset_builds(
            valid_path_pats(pats_view(patterns@)),
        )) && (valid_leaf_pats(pats_view(patterns@)).len() > 0 ==> globset_builds(
            valid_leaf_pats(pats_view(patterns@)),
        )))),
        r is Ok ==> r.unwrap().globs.path_pats() == (if valid_path_pats(
            pats_view(patterns@),
        ).len() == 0 {
            None::<Seq<Seq<char>>>
        } else {
            Some(valid_path_pats(pats_view(patterns@)))
        }),
        r is Ok ==> r.unwrap().globs.leaf_pats() == (if valid_leaf_pats(
            pats_view(patterns@),
        ).len() == 0 {
            None::<Seq<Seq<char>>>
        } else {
            Some(valid_leaf_pats(pats_view(patterns@)))
        }),
        r is Ok ==> pats_view(r.unwrap().rejected@) == invalid_pats(pats_view(patterns@)),
        (r matches Err(GlobError::AllInvalid { rejected }) ==> pats_view(rejected@)
            == invalid_pats(pats_view(patterns@))),
        (r matches Err(GlobError::BuildFailed { rejected, .. }) ==> pats_view(rejected@)
            == invalid_pats(pats_view(patterns@))),
{
    let ghost pv = pats_view(patterns@);
    let mut path_builder = globset_builder_new();
    let mut leaf_builder = globset_builder_new();
    let mut n_path: usize = 0;
    let mut n_leaf: usize = 0;
    let mut rejected: Vec<String> = Vec::new();
    proof {
        assert(pv.take(0) =~= Seq::<Seq<char>>::empty());
        assert(pats_view(rejected@) =~= Seq::<Seq<char>>::empty());
    }
    let mut i: usize = 0;
    while i < patterns.len()
        invariant
            i <= patterns.len(),
            pv == pats_view(patterns@),
            pv.len() == patterns.len(),
            builder_patterns(path_builder) == valid_path_pats(pv.take(i as int)),
            builder_patterns(leaf_builder) == valid_leaf_pats(pv.take(i as int)),
            pats_view(rejected@) == invalid_pats(pv.take(i as int)),
            n_path == valid_path_pats(pv.take(i as int)).len(),
            n_leaf == valid_leaf_pats(pv.take(i as int)).len(),
            n_path <= i,
            n_leaf <= i,
        decreases patterns.len() - i,
    {
        proof {
            assert(pv.take(i + 1).drop_last() =~= pv.take(i as int));
            assert(pv.take(i + 1).last() == pv[i as int]);
            assert(pv[i as int] == patterns@[i as int]@);
        }
        let p = &patterns[i];
        if is_path_glob(p.as_str()) {
            let stripped: &str = if p.as_str().unicode_len() > 0 && p.as_str().get_char(0) == '/' {
                p.as_str().substring_char(1, p.as_str().unicode_len())
            } else {
                p.as_str()
            };
            proof {
                assert(p@.subrange(1, p@.len() as int) =~= p@.drop_first());
                assert(stripped@ == strip_lead_sep(pv[i as int]));
            }
            match compile_glob(stripped) {
                Some(g) => {
                    globset_builder_add(&mut path_builder, g);
                    n_path += 1;
                }
                None => {
                    let ghost prevr = rejected@;
                    rejected.push(p.clone());
                    proof {
                        assert(pats_view(rejected@) =~= pats_view(prevr).push(p@));
                    }
                }
            }
        } else {
            match compile_glob(p.as_str()) {
                Some(g) => {
                    globset_builder_add(&mut leaf_builder, g);
                    n_leaf += 1;
                }
                None => {
                    let ghost prevr = rejected@;
                    rejected.push(p.clone());
                    proof {
                        assert(pats_view(rejected@) =~= pats_view(prevr).push(p@));
                    }
                }
            }
        }
        i += 1;
    }
    proof {
        assert(pv.take(pv.len() as int) =~= pv);
    }
    if n_path == 0 && n_leaf == 0 {
        return Err(GlobError::AllInvalid { rejected });
    }
    let path_globs = if n_path == 0 {
        None
    } else {
        match globset_builder_build(&path_builder) {
            Ok(s) => Some(s),
            Err(e) => {
                return Err(GlobError::BuildFailed { message: e, rejected });
            }
        }
    };
    let leaf_globs = if n_leaf == 0 {
        None
    } else {
        match globset_builder_build(&leaf_builder) {
            Ok(s) => Some(s),
            Err(e) => {
                return Err(GlobError::BuildFailed { message: e, rejected });
            }
        }
    };
    Ok(BuiltGlobs { globs: ScopedGlobSet { path_globs, leaf_globs }, rejected })
}

/// A pattern never matches through the wrong scope. A path-shaped set that
/// does not match the full relative path contributes nothing: the answer
/// is then the leaf-shaped set's alone, never a path-shaped pattern's
/// match of a bare leaf name.
pub proof fn lemma_path_patterns_need_full_match(
    path_pats: Option<Seq<Seq<char>>>,
    leaf_pats: Option<Seq<Seq<char>>>,
    full: Seq<char>,
    leaf: Option<Seq<char>>,
)
    requires
        path_pats is Some ==> !globset_matches(path_pats.unwrap(), full),
    ensures
        scoped_match(path_pats, leaf_pats, full, leaf) == (leaf_pats is Some && leaf is Some
            && globset_matches(leaf_pats.unwrap(), leaf.unwrap())),
{
}

/// A leaf-shaped pattern sees only the final component: with no path-shaped
/// set present, two candidates with the same final component get the same
/// answer, whatever their intermediate segments.
pub proof fn lemma_leaf_patterns_see_only_leaf(
    leaf_pats: Option<Seq<Seq<char>>>,
    full_a: Seq<char>,
    full_b: Seq<char>,
    leaf: Option<Seq<char>>,
)
    ensures
        scoped_match(None, leaf_pats, full_a, leaf) == scoped_match(None, leaf_pats, full_b, leaf),
{
}

} // verus!
