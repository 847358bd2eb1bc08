use vstd::prelude::*;

use regex::Regex;
use std::path::Path;

verus! {

#[verifier::external_type_specification]
#[verifier::external_body]
pub struct ExRegex(Regex);

#[verifier::external_type_specification]
#[verifier::external_body]
pub struct ExRegexError(regex::Error);

/// Whether `pattern` is a regular expression that the regex crate accepts.
pub uninterp spec fn regex_compiles(pattern: Seq<char>) -> bool;

/// Whether the regular expression `pattern` matches somewhere in `haystack`.
pub uninterp spec fn regex_matches(pattern: Seq<char>, haystack: Seq<char>) -> bool;

/// The extension of the file name of `path`, as `std::path::Path::extension` finds it.
pub uninterp spec fn extension_of(path: Seq<char>) -> Option<Seq<char>>;

/// A regular expression that does not compile.
#[derive(Clone, Debug, PartialEq, Eq)]
pub struct PatternError {
    pub pattern: String,
}

/// A compiled regular expression with the text it was compiled from.
pub struct ExtensionPattern {
    expr: String,
    re: Regex,
}

impl ExtensionPattern {
    /// The text of the regular expression.
    pub closed spec fn expr(&self) -> Seq<char> {
        self.expr@
    }
}

/// Relies on `Regex::new`: it succeeds exactly on the patterns it accepts. The compiled regex
/// is kept with its text; nothing else builds an `ExtensionPattern`.
#[verifier::external_body]
fn compile_pattern(expr: String) -> (r: Result<ExtensionPattern, regex::Error>)
    ensures
        r is Ok <==> regex_compiles(expr@),
        r matches Ok(p) ==> p.expr() == expr@,
{
    match Regex::new(&expr) {
        Ok(re) => Ok(ExtensionPattern { expr, re }),
        Err(e) => Err(e),
    }
}

/// Relies on `Regex::is_match`: whether the regex, compiled from the pattern's text by
/// `compile_pattern`, matches somewhere in `haystack`.
#[verifier::external_body]
fn pattern_is_match(p: &ExtensionPattern, haystack: &str) -> (r: bool)
    ensures
        r == regex_matches(p.expr(), haystack@),
{
    p.re.is_match(haystack)
}

/// Relies on `Path::extension`: the extension of the file name, if there is one. A `str`
/// path has a UTF-8 extension, so `to_str` always succeeds.
#[verifier::external_body]
fn path_extension(path: &str) -> (r: Option<String>)
    ensures
        extension_of(path@) == match r {
            Some(e) => Some(e@),
            None => None,
        },
{
    Path::new(path).extension().and_then(|e| e.to_str()).map(|e| e.to_owned())
}

/// The text that the patterns are matched against: the extension of `path`, or the empty
/// text where it has none.
pub open spec fn extension_text(path: Seq<char>) -> Seq<char> {
    match extension_of(path) {
        Some(e) => e,
        None => Seq::empty(),
    }
}

/// The named patterns `v` with `expr` under `name`: in place of the one of that name, or added
/// at the end.
pub open spec fn with_pattern(
    v: Seq<(Seq<char>, Seq<char>)>,
    name: Seq<char>,
    expr: Seq<char>,
) -> Seq<(Seq<char>, Seq<char>)> {
    if exists|i: int| 0 <= i < v.len() && v[i].0 == name {
        let i = choose|i: int| 0 <= i < v.len() && v[i].0 == name;
        v.update(i, (name, expr))
    } else {
        v.push((name, expr))
    }
}

/// Names appear at most once.
pub open spec fn names_unique(v: Seq<(Seq<char>, Seq<char>)>) -> bool {
    forall|i: int, j: int| 0 <= i < v.len() && 0 <= j < v.len() && i != j ==>
        #[trigger] v[i].0 != #[trigger] v[j].0
}

/// Names and pattern texts of a list of named patterns.
pub open spec fn pairs_view(v: Seq<(String, String)>) -> Seq<(Seq<char>, Seq<char>)> {
    v.map_values(|p: (String, String)| (p.0@, p.1@))
}

/// `v` with each named pattern of `list` put in, in turn.
pub open spec fn with_patterns(
    v: Seq<(Seq<char>, Seq<char>)>,
    list: Seq<(Seq<char>, Seq<char>)>,
) -> Seq<(Seq<char>, Seq<char>)>
    decreases list.len(),
{
    if list.len() == 0 {
        v
    } else {
        with_pattern(with_patterns(v, list.drop_last()), list.last().0, list.last().1)
    }
}

/// The pattern at `k` is the first of `list` that does not compile.
pub open spec fn first_failure(list: Seq<(Seq<char>, Seq<char>)>, k: int) -> bool {
    &&& !regex_compiles(list[k].1)
    &&& forall|j: int| 0 <= j < k ==> regex_compiles(#[trigger] list[j].1)
}

proof fn lemma_with_pattern_unique(v: Seq<(Seq<char>, Seq<char>)>, name: Seq<char>, expr: Seq<char>)
    requires
        names_unique(v),
    ensures
        names_unique(with_pattern(v, name, expr)),
{
    let w = with_pattern(v, name, expr);
    if exists|i: int| 0 <= i < v.len() && v[i].0 == name {
        let c = choose|i: int| 0 <= i < v.len() && v[i].0 == name;
        assert forall|i: int, j: int| 0 <= i < w.len() && 0 <= j < w.len() && i != j
            implies #[trigger] w[i].0 != #[trigger] w[j].0 by {
            assert(w[i].0 == v[i].0);
            assert(w[j].0 == v[j].0);
        }
    } else {
        assert forall|i: int, j: int| 0 <= i < w.len() && 0 <= j < w.len() && i != j
            implies #[trigger] w[i].0 != #[trigger] w[j].0 by {
            if i < v.len() { assert(w[i] == v[i]); }
            if j < v.len() { assert(w[j] == v[j]); }
        }
    }
}

/// Accepts a path when one of its named patterns matches the path's extension.
pub struct PathExtensionFilter {
    patterns: Vec<(String, ExtensionPattern)>,
}

impl View for PathExtensionFilter {
    type V = Seq<(Seq<char>, Seq<char>)>;

    /// The named patterns, each as its name and its text.
    closed spec fn view(&self) -> Seq<(Seq<char>, Seq<char>)> {
        self.patterns@.map_values(|p: (String, ExtensionPattern)| (p.0@, p.1.expr()))
    }
}

impl PathExtensionFilter {
    /// Whether `path` passes the filter: some pattern matches its extension.
    pub open spec fn accepts(&self, path: Seq<char>) -> bool {
        exists|i: int| 0 <= i < self@.len() && regex_matches(#[trigger] self@[i].1, extension_text(path))
    }

    /// A filter with no patterns, which accepts no path.
    pub fn new() -> (r: PathExtensionFilter)
        ensures
            r.wf(),
            r@ == Seq::<(Seq<char>, Seq<char>)>::empty(),
    {
        PathExtensionFilter { patterns: Vec::new() }
    }

    /// Well-formed: no two patterns share a name.
    pub closed spec fn wf(&self) -> bool {
        names_unique(self@)
    }

    /// Compiles `expr` and keeps it under the name `extension`, in place of any pattern of that
    /// name. Fails, changing nothing, when `expr` does not compile.
    pub fn add_extension_regex(&mut self, extension: String, expr: String) -> (r: Result<
        (),
        PatternError,
    >)
        requires
            old(self).wf(),
        ensures
            final(self).wf(),
            r is Ok <==> regex_compiles(expr@),
            r is Ok ==> final(self)@ == with_pattern(old(self)@, extension@, expr@),
            r matches Err(e) ==> e.pattern@ == expr@ && final(self)@ == old(self)@,
    {
        let text = expr.clone();
        let ghost expr_view = expr@;
        let pattern = match compile_pattern(expr) {
            Ok(p) => p,
            Err(_) => return Err(PatternError { pattern: text }),
        };
        let ghost v0 = self@;
        let ghost entry = (extension@, pattern.expr());
        let mut i: usize = 0;
        while i < self.patterns.len()
            invariant
                self@ == v0,
                v0 == old(self)@,
                expr_view == expr@,
                names_unique(v0),
                entry == (extension@, pattern.expr()),
                pattern.expr() == expr_view,
                regex_compiles(expr_view),
                i <= self.patterns.len(),
                forall|k: int| 0 <= k < i ==> v0[k].0 != extension@,
            decreases self.patterns.len() - i,
        {
            assert(v0[i as int].0 == self.patterns@[i as int].0@);
            if self.patterns[i].0 == extension {
                let mut slot = (extension, pattern);
                std::mem::swap(&mut self.patterns[i], &mut slot);
                proof {
                    assert(self@ =~= v0.update(i as int, entry));
                    let c = choose|c: int| 0 <= c < v0.len() && v0[c].0 == extension@;
                    assert(c == i);
                    lemma_with_pattern_unique(v0, entry.0, entry.1);
                }
                return Ok(());
            }
            i += 1;
        }
        self.patterns.push((extension, pattern));
        proof {
            assert(self@ =~= v0.push(entry));
            lemma_with_pattern_unique(v0, entry.0, entry.1);
        }
        Ok(())
    }

    /// Adds the pattern `(?i)jpe?g$` under the name `jpeg`.
    pub fn add_jpeg(&mut self) -> (r: Result<(), PatternError>)
        requires
            old(self).wf(),
        ensures
            final(self).wf(),
            r is Ok <==> regex_compiles("(?i)jpe?g$"@),
            r is Ok ==> final(self)@ == with_pattern(old(self)@, "jpeg"@, "(?i)jpe?g$"@),
            r is Err ==> final(self)@ == old(self)@,
    {
        self.add_extension_regex("jpeg".to_owned(), "(?i)jpe?g$".to_owned())
    }

    /// Adds the pattern `(?i)png$` under the name `png`.
    pub fn add_png(&mut self) -> (r: Result<(), PatternError>)
        requires
            old(self).wf(),
        ensures
            final(self).wf(),
            r is Ok <==> regex_compiles("(?i)png$"@),
            r is Ok ==> final(self)@ == with_pattern(old(self)@, "png"@, "(?i)png$"@),
            r is Err ==> final(self)@ == old(self)@,
    {
        self.add_extension_regex("png".to_owned(), "(?i)png$".to_owned())
    }

    /// Adds the pattern `(?i)bmp$` under the name `bmp`.
    pub fn add_bmp(&mut self) -> (r: Result<(), PatternError>)
        requires
            old(self).wf(),
        ensures
            final(self).wf(),
            r is Ok <==> regex_compiles("(?i)bmp$"@),
            r is Ok ==> final(self)@ == with_pattern(old(self)@, "bmp"@, "(?i)bmp$"@),
            r is Err ==> final(self)@ == old(self)@,
    {
        self.add_extension_regex("bmp".to_owned(), "(?i)bmp$".to_owned())
    }

    /// Adds each named pattern in turn, stopping at the first that does not compile: the
    /// patterns before it stay added, and its error is returned.
    pub fn add_many_extension_regex(&mut self, expressions: Vec<(String, String)>) -> (r: Result<
        (),
        PatternError,
    >)
        requires
            old(self).wf(),
        ensures
            final(self).wf(),
            r is Ok <==> forall|k: int| 0 <= k < expressions@.len() ==>
                regex_compiles(#[trigger] expressions@[k].1@),
            r is Ok ==> final(self)@ == with_patterns(old(self)@, pairs_view(expressions@)),
            r matches Err(e) ==> exists|k: int|
                0 <= k < expressions@.len() && first_failure(pairs_view(expressions@), k) && e.pattern@
                    == expressions@[k].1@
                    && final(self)@ == with_patterns(old(self)@, #[trigger] pairs_view(expressions@).take(k)),
    {
        let ghost v0 = self@;
        let ghost list = pairs_view(expressions@);
        for pair in it: expressions.into_iter()
            invariant
                v0 == old(self)@,
                it.seq() == expressions@,
                list == pairs_view(expressions@),
                self.wf(),
                self@ == with_patterns(v0, list.take(it.index() as int)),
                forall|k: int| 0 <= k < it.index() ==> regex_compiles(#[trigger] list[k].1),
        {
            let ghost k = it.index() as int;
            assert(list[k] == (pair.0@, pair.1@));
            assert(list.take(k + 1).drop_last() =~= list.take(k));
            let (name, expr) = pair;
            match self.add_extension_regex(name, expr) {
                Ok(()) => {},
                Err(e) => {
                    proof {
                        assert(first_failure(list, k));
                        assert(e.pattern@ == expressions@[k].1@);
                        assert(self@ == with_patterns(v0, pairs_view(expressions@).take(k)));
                    }
                    return Err(e);
                },
            }
        }
        proof {
            assert(list.take(list.len() as int) =~= list);
            assert forall|k: int| 0 <= k < expressions@.len()
                implies regex_compiles(#[trigger] expressions@[k].1@) by {
                assert(list[k].1 == expressions@[k].1@);
            }
        }
        Ok(())
    }

    /// Whether `path` passes the filter: some pattern matches the extension of its file name,
    /// or the empty text where it has none.
    pub fn is_match(&self, path: &str) -> (r: bool)
        ensures
            r == self.accepts(path@),
    {
        let ext = match path_extension(path) {
            Some(e) => e,
            None => String::new(),
        };
        let mut i: usize = 0;
        while i < self.patterns.len()
            invariant
                i <= self.patterns.len(),
                ext@ == extension_text(path@),
                forall|k: int| 0 <= k < i ==>
                    !regex_matches(#[trigger] self@[k].1, extension_text(path@)),
            decreases self.patterns.len() - i,
        {
            assert(self@[i as int].1 == self.patterns@[i as int].1.expr());
            if pattern_is_match(&self.patterns[i].1, ext.as_str()) {
                return true;
            }
            i += 1;
        }
        false
    }
}

} // verus!
