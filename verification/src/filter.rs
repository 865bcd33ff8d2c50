use vstd::prelude::*;

verus! {

// ---------------------------------------------------------------------------
// Declarations of globset's types, so they can stand in signatures and fields.
// ---------------------------------------------------------------------------

#[verifier::external_type_specification]
#[verifier::external_body]
pub struct ExGlob(globset::Glob);

#[verifier::external_type_specification]
#[verifier::external_body]
pub struct ExGlobSet(globset::GlobSet);

#[verifier::external_type_specification]
#[verifier::external_body]
pub struct ExGlobSetBuilder(globset::GlobSetBuilder);

// ---------------------------------------------------------------------------
// Names for what globset computes or holds.
// ---------------------------------------------------------------------------

/// Whether `globset::Glob::new` accepts a pattern text: acceptance depends on
/// the pattern's characters alone.
pub uninterp spec fn glob_ok(pattern: Seq<char>) -> bool;

/// The pattern text that a compiled `globset::Glob` holds.
pub uninterp spec fn glob_pattern(g: globset::Glob) -> Seq<char>;

/// The patterns that a `globset::GlobSetBuilder` has collected so far, in the
/// order they were added.
pub uninterp spec fn builder_patterns(b: globset::GlobSetBuilder) -> Seq<Seq<char>>;

/// The patterns that a built `globset::GlobSet` holds.
pub uninterp spec fn globset_patterns(s: globset::GlobSet) -> Seq<Seq<char>>;

/// Whether one glob pattern matches one path, as `globset` decides it: a pure
/// function of the pattern and the path. Note that `globset` normalizes paths
/// per target — on hosts where the backslash is a path separator, paths
/// holding `\` can match differently — so this name is read per build.
pub uninterp spec fn glob_match(pattern: Seq<char>, path: Seq<char>) -> bool;

/// Whether `globset::GlobSetBuilder::build` succeeds on a given pattern
/// list: the outcome depends on the patterns alone.
pub uninterp spec fn globset_builds(pats: Seq<Seq<char>>) -> bool;

// ---------------------------------------------------------------------------
// Trusted wrappers around globset.
// ---------------------------------------------------------------------------

/// Relies on `globset::Glob::new`: compiling succeeds or fails depending on
/// the pattern text alone, and a compiled `Glob` holds exactly the pattern it
/// was compiled from.
#[verifier::external_body]
pub(crate) fn compile_glob(line: &str) -> (r: Result<globset::Glob, String>)
    ensures
        r is Ok <==> glob_ok(line@),
        r is Ok ==> glob_pattern(r->Ok_0) == line@,
{
    match globset::Glob::new(line) {
        Ok(g) => Ok(g),
        Err(e) => Err(e.to_string()),
    }
}

/// Relies on `globset::GlobSetBuilder::new`: a fresh builder holds no
/// patterns.
#[verifier::external_body]
pub(crate) fn new_builder() -> (b: globset::GlobSetBuilder)
    ensures
        builder_patterns(b) == Seq::<Seq<char>>::empty(),
{
    globset::GlobSetBuilder::new()
}

/// Relies on `globset::GlobSetBuilder::add`: adding a compiled glob appends
/// its pattern to the builder's collection.
#[verifier::external_body]
pub(crate) fn builder_add(b: &mut globset::GlobSetBuilder, g: globset::Glob)
    ensures
        builder_patterns(*final(b)) == builder_patterns(*old(b)).push(glob_pattern(g)),
{
    b.add(g);
}

/// Relies on `globset::GlobSetBuilder::build`: whether building succeeds
/// depends on the collected patterns alone, and on success the finished set
/// holds exactly the patterns the builder collected.
#[verifier::external_body]
pub(crate) fn builder_build(b: &globset::GlobSetBuilder) -> (r: Result<
    globset::GlobSet,
    String,
>)
    ensures
        r is Ok <==> globset_builds(builder_patterns(*b)),
        r is Ok ==> globset_patterns(r->Ok_0) == builder_patterns(*b),
{
    match b.build() {
        Ok(s) => Ok(s),
        Err(e) => Err(e.to_string()),
    }
}

/// Whether at least one of the patterns matches the path.
pub open spec fn patterns_match(pats: Seq<Seq<char>>, path: Seq<char>) -> bool {
    exists|i: int| 0 <= i < pats.len() && glob_match(pats[i], path)
}

/// Relies on `globset::GlobSet::is_match`: true exactly when at least one
/// glob in the set matches the path.
#[verifier::external_body]
pub(crate) fn set_is_match(s: &globset::GlobSet, path: &str) -> (r: bool)
    ensures
        r == (exists|i: int| 0 <= i < globset_patterns(*s).len() && glob_match(globset_patterns(*s)[i], path@)),
{
    s.is_match(path)
}

// ---------------------------------------------------------------------------
// The verified filter.
// ---------------------------------------------------------------------------

/// The inclusion filter over relative path strings: either the default filter
/// that matches every path, or a compiled set of glob patterns evaluated as
/// "at least one pattern matches".
pub enum Filter {
    All,
    Globs(globset::GlobSet),
}

/// A pattern line that counts: neither blank nor a comment.
pub open spec fn is_active_line(line: Seq<char>) -> bool {
    line.len() > 0 && line[0] != '#'
}

/// The patterns of the active lines that compile, in file order.
pub open spec fn valid_patterns(lines: Seq<Seq<char>>) -> Seq<Seq<char>>
    decreases lines.len(),
{
    if lines.len() == 0 {
        Seq::empty()
    } else {
        let rest = valid_patterns(lines.drop_last());
        let l = lines.last();
        if is_active_line(l) && glob_ok(l) {
            rest.push(l)
        } else {
            rest
        }
    }
}

/// The view of a list of line strings as a sequence of character sequences.
pub open spec fn lines_view(lines: Seq<String>) -> Seq<Seq<char>> {
    lines.map_values(|s: String| s@)
}

/// One warning for a pattern line that did not compile: its zero-based line
/// index, the line's text, and the compiler's message.
pub struct GlobWarning {
    pub index: usize,
    pub line: String,
    pub message: String,
}

/// The warnings describe exactly the active lines among the first `n` that do
/// not compile, in file order.
pub open spec fn warnings_describe(w: Seq<GlobWarning>, lv: Seq<Seq<char>>, n: int) -> bool {
    &&& forall|j: int|
        0 <= j < w.len() ==> {
            &&& 0 <= #[trigger] w[j].index < n
            &&& is_active_line(lv[w[j].index as int])
            &&& !glob_ok(lv[w[j].index as int])
            &&& w[j].line@ == lv[w[j].index as int]
        }
    &&& forall|j1: int, j2: int|
        0 <= j1 < j2 < w.len() ==> #[trigger] w[j1].index < #[trigger] w[j2].index
    &&& forall|i: int|
        0 <= i < n && is_active_line(#[trigger] lv[i]) && !glob_ok(lv[i]) ==> exists|j: int|
            0 <= j < w.len() && #[trigger] w[j].index == i
}

impl Filter {
    /// What it means for this filter to accept a path.
    pub open spec fn spec_matches(&self, path: Seq<char>) -> bool {
        match self {
            Filter::All => true,
            Filter::Globs(s) => patterns_match(globset_patterns(*s), path),
        }
    }

    /// The patterns this filter was built from; the default filter has none.
    pub open spec fn spec_patterns(&self) -> Seq<Seq<char>> {
        match self {
            Filter::All => Seq::empty(),
            Filter::Globs(s) => globset_patterns(*s),
        }
    }

    /// The default filter, used when no pattern file is supplied: it accepts
    /// every path.
    pub fn all() -> (r: Filter)
        ensures
            forall|path: Seq<char>| r.spec_matches(path),
    {
        Filter::All
    }

    /// Whether this filter accepts `path`.
    pub fn matches(&self, path: &str) -> (r: bool)
        ensures
            r == self.spec_matches(path@),
    {
        match self {
            Filter::All => true,
            Filter::Globs(s) => set_is_match(s, path),
        }
    }

    /// Compile a filter from the lines of a pattern file. Blank lines and
    /// lines starting with `#` are ignored. Every other line is compiled as
    /// one glob; a line that does not compile is reported in the returned
    /// warnings and left out of the active set, and the remaining valid
    /// patterns still take effect. An error comes back exactly when the set
    /// of valid patterns itself cannot be built into a matcher.
    pub fn from_lines(lines: &Vec<String>) -> (r: Result<(Filter, Vec<GlobWarning>), String>)
        ensures
            r is Ok <==> globset_builds(valid_patterns(lines_view(lines@))),
            r is Ok ==> r->Ok_0.0 is Globs,
            r is Ok ==> r->Ok_0.0.spec_patterns() == valid_patterns(lines_view(lines@)),
            r is Ok ==> warnings_describe(
                r->Ok_0.1@,
                lines_view(lines@),
                lines@.len() as int,
            ),
    {
        let ghost lv = lines_view(lines@);
        let mut builder = new_builder();
        let mut warnings: Vec<GlobWarning> = Vec::new();
        let mut i: usize = 0;
        while i < lines.len()
            invariant
                i <= lines.len(),
                lv == lines_view(lines@),
                lv.len() == lines@.len(),
                builder_patterns(builder) == valid_patterns(lv.take(i as int)),
                warnings_describe(warnings@, lv, i as int),
                forall|j: int| 0 <= j < warnings@.len() ==> #[trigger] warnings@[j].index < i,
            decreases lines.len() - i,
        {
            let line: &String = &lines[i];
            proof {
                assert(lv[i as int] == line@);
                assert(lv.take(i + 1 as int).drop_last() =~= lv.take(i as int));
                assert(lv.take(i + 1 as int).last() == lv[i as int]);
            }
            if !line.as_str().is_empty() && line.as_str().get_char(0) != '#' {
                match compile_glob(line.as_str()) {
                    Ok(g) => {
                        builder_add(&mut builder, g);
                    },
                    Err(message) => {
                        let ghost old_w = warnings@;
                        let w = GlobWarning { index: i, line: line.clone(), message };
                        warnings.push(w);
                        proof {
                            let wv = warnings@;
                            assert(wv == old_w.push(w));
                            assert forall|i2: int|
                                0 <= i2 < i + 1 && is_active_line(#[trigger] lv[i2]) && !glob_ok(
                                    lv[i2],
                                ) implies exists|j: int|
                                0 <= j < wv.len() && #[trigger] wv[j].index == i2 by {
                                if i2 == i {
                                    assert(wv[wv.len() - 1].index == i2);
                                } else {
                                    let j = choose|j: int|
                                        0 <= j < old_w.len() && #[trigger] old_w[j].index == i2;
                                    assert(wv[j].index == i2);
                                }
                            }
                        }
                    },
                }
            }
            i = i + 1;
        }
        proof {
            assert(lv.take(lines@.len() as int) =~= lv);
        }
        match builder_build(&builder) {
            Ok(s) => Ok((Filter::Globs(s), warnings)),
            Err(m) => Err(m),
        }
    }
}

} // verus!
