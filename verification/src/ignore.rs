//! The ignore matcher: turns the text of an ignore file into a set of glob
//! patterns and asks that set whether a path is excluded.
//!
//! Parsing and matching of a single glob are the `globset` crate's, with
//! the separator taken literally: `*` and `?` stay within one segment of a
//! path and only `**` spans segments. What this module proves is which
//! patterns reach that crate, and that the set matches a path exactly when
//! one of them does.

use crate::text::{
    chars_of, is_space, split, split_str, strip_trailing, strip_trailing_str, trim, trim_end,
    trim_start, trim_str, views,
};
use globset::{Glob, GlobBuilder, GlobSet, GlobSetBuilder};
use vstd::prelude::*;
use vstd::string::StringExecFns;

pub use crate::scan::list_files_recursive;

verus! {

/// `globset::Glob`, a glob that has been parsed. Nothing of its inside is
/// known here but the text it was parsed from, `glob_text`, and whether it
/// was `parsed_literally`.
#[verifier::external_type_specification]
#[verifier::external_body]
pub struct ExGlob(Glob);

/// `globset::GlobSetBuilder`, which collects globs for a set. Nothing of
/// its inside is known here but the globs added to it, `builder_globs`, and
/// whether it was `filled_literally`.
#[verifier::external_type_specification]
#[verifier::external_body]
pub struct ExGlobSetBuilder(GlobSetBuilder);

/// `globset::GlobSet`, globs compiled to be matched together. Nothing of
/// its inside is known here; what is known of a set is what it matches,
/// `set_matches`.
#[verifier::external_type_specification]
#[verifier::external_body]
pub struct ExGlobSet(GlobSet);

/// `globset::Error`, why a glob did not parse or a set did not compile.
/// It is only ever passed over.
#[verifier::external_type_specification]
#[verifier::external_body]
pub struct ExGlobError(globset::Error);

/// Whether `globset` accepts `pattern` as a glob: whether
/// `GlobBuilder::build` returns `Ok` for it when the separator is taken
/// literally and the other options are left as they are. (`globset` reads
/// `\` as an escape where `/` alone separates path segments and as a
/// separator on Windows; the name stands for what it does on the platform
/// that the library is built for.)
pub uninterp spec fn glob_parses(pattern: Seq<char>) -> bool;

/// The pattern text a `Glob` was parsed from: what `Glob::glob` returns.
pub uninterp spec fn glob_text(glob: Glob) -> Seq<char>;

/// Whether a glob has the options that `parse_glob` gives it: the
/// separator taken literally, and every other option as `GlobBuilder::new`
/// leaves it.
pub uninterp spec fn parsed_literally(glob: Glob) -> bool;

/// The pattern texts of the globs added to a builder so far, in order.
pub uninterp spec fn builder_globs(builder: GlobSetBuilder) -> Seq<Seq<char>>;

/// Whether every glob added to a builder so far is `parsed_literally`.
pub uninterp spec fn filled_literally(builder: GlobSetBuilder) -> bool;

/// Whether `globset` can compile globs with these pattern texts, parsed as
/// `glob_parses` says, into one set: whether `GlobSetBuilder::build`
/// returns `Ok` for them.
pub uninterp spec fn set_compiles(globs: Seq<Seq<char>>) -> bool;

/// Whether the glob with text `pattern`, parsed as `glob_parses` says,
/// matches `path`: what a set of that one glob answers, `GlobSet::is_match`
/// on the set built from it alone. (A matcher made of the glob by itself
/// may answer otherwise on some paths, such as one that ends in `..`.) With
/// the separator taken literally `*` and `?` stay within one segment of the
/// path, and only `**` spans segments. Like `glob_parses` the name stands
/// for what `globset` does on the platform that the library is built for.
pub uninterp spec fn glob_matches(pattern: Seq<char>, path: Seq<char>) -> bool;

/// Whether a set matches `path`: what `GlobSet::is_match` returns for it.
pub uninterp spec fn set_matches(set: GlobSet, path: Seq<char>) -> bool;

/// `GlobBuilder::new`, `GlobBuilder::literal_separator` and
/// `GlobBuilder::build`: parses a pattern with the separator taken
/// literally. The names speak of that parsing alone, which is why the
/// wrapper is for it alone. It succeeds exactly on the patterns that
/// `glob_parses` names, and the glob it returns remembers the text it was
/// given.
#[verifier::external_body]
fn parse_glob(pattern: &str, literal_separator: bool) -> (r: Result<Glob, globset::Error>)
    requires
        literal_separator,
    ensures
        r.is_ok() == glob_parses(pattern@),
        r matches Ok(g) ==> glob_text(g) == pattern@ && parsed_literally(g),
{
    GlobBuilder::new(pattern).literal_separator(literal_separator).build()
}

/// `GlobSetBuilder::new` starts with no globs.
pub assume_specification[ GlobSetBuilder::new ]() -> (builder: GlobSetBuilder)
    ensures
        builder_globs(builder).len() == 0,
        filled_literally(builder),
;

/// `GlobSetBuilder::build` compiles the globs added so far. Where it
/// succeeds the set matches a path exactly when one of those globs does.
/// The clauses speak of a builder by the texts of its globs, and so of
/// globs parsed as `glob_parses` says: the builder has to be
/// `filled_literally`.
pub assume_specification[ GlobSetBuilder::build ](builder: &GlobSetBuilder) -> (r: Result<
    GlobSet,
    globset::Error,
>)
    requires
        filled_literally(*builder),
    ensures
        r.is_ok() == set_compiles(builder_globs(*builder)),
        r matches Ok(set) ==> forall|p: Seq<char>| #[trigger]
            set_matches(set, p) == (exists|i: int|
                0 <= i < builder_globs(*builder).len() && glob_matches(
                    #[trigger] builder_globs(*builder)[i],
                    p,
                )),
;

/// `GlobSet::empty` is the set of no globs: it matches nothing.
pub assume_specification[ GlobSet::empty ]() -> (set: GlobSet)
    ensures
        forall|p: Seq<char>| !#[trigger] set_matches(set, p),
;

/// `GlobSetBuilder::add` appends one glob to the builder.
#[verifier::external_body]
fn builder_add(builder: &mut GlobSetBuilder, glob: Glob)
    ensures
        builder_globs(*final(builder)) == builder_globs(*old(builder)).push(glob_text(glob)),
        filled_literally(*final(builder)) == (filled_literally(*old(builder)) && parsed_literally(
            glob,
        )),
{
    builder.add(glob);
}

/// `GlobSet::is_match` says whether the set matches the path.
#[verifier::external_body]
fn set_is_match(set: &GlobSet, path: &str) -> (r: bool)
    ensures
        r == set_matches(*set, path@),
{
    set.is_match(path)
}

/// Whether at least one of `globs` matches `path`.
pub open spec fn any_glob_matches(globs: Seq<Seq<char>>, path: Seq<char>) -> bool {
    exists|i: int| 0 <= i < globs.len() && glob_matches(#[trigger] globs[i], path)
}

/// `**/`, which lets a pattern match below any directory.
pub open spec fn at_any_depth() -> Seq<char> {
    seq!['*', '*', '/']
}

/// `/**`, which matches everything beneath a directory.
pub open spec fn everything_beneath() -> Seq<char> {
    seq!['/', '*', '*']
}

/// The glob that hides the control directory: `.genie/**`.
pub open spec fn control_glob() -> Seq<char> {
    seq!['.', 'g', 'e', 'n', 'i', 'e', '/', '*', '*']
}

/// The globs that one line of an ignore file stands for.
///
/// A blank line or a comment stands for none. A line that ends in `/` names
/// a directory and stands for four globs: the directory's contents and the
/// directory itself, each at the root and at any depth. Any other line
/// stands for two: itself, at the root and at any depth.
pub open spec fn expand(line: Seq<char>) -> Seq<Seq<char>> {
    let pat = trim(line);
    if pat.len() == 0 || pat[0] == '#' {
        seq![]
    } else if pat.last() == '/' {
        let dir = strip_trailing(pat, '/');
        seq![
            dir + everything_beneath(),
            at_any_depth() + dir + everything_beneath(),
            dir,
            at_any_depth() + dir,
        ]
    } else {
        seq![pat, at_any_depth() + pat]
    }
}

/// The globs of all `lines`, in order.
pub open spec fn expand_all(lines: Seq<Seq<char>>) -> Seq<Seq<char>>
    decreases lines.len(),
{
    if lines.len() == 0 {
        seq![]
    } else {
        expand_all(lines.drop_last()) + expand(lines.last())
    }
}

/// Every glob that an ignore file with these `contents` asks for, followed
/// by the glob of the control directory.
pub open spec fn candidate_globs(contents: Seq<char>) -> Seq<Seq<char>> {
    expand_all(split(contents, '\n')).push(control_glob())
}

/// Those of `globs` that parse, in order.
pub open spec fn well_formed(globs: Seq<Seq<char>>) -> Seq<Seq<char>> {
    globs.filter(|g: Seq<char>| glob_parses(g))
}

/// The globs that the set compiled from `globs` matches by: the
/// well-formed ones, or none at all where these do not compile together.
pub open spec fn compiled_globs(globs: Seq<Seq<char>>) -> Seq<Seq<char>> {
    if set_compiles(well_formed(globs)) {
        well_formed(globs)
    } else {
        seq![]
    }
}

/// The globs that the set of an ignore file with these `contents` matches
/// by: all of its globs that are well formed or, where these do not compile
/// together, the glob of the control directory alone.
pub open spec fn ignore_globs(contents: Seq<char>) -> Seq<Seq<char>> {
    if set_compiles(well_formed(candidate_globs(contents))) {
        well_formed(candidate_globs(contents))
    } else {
        compiled_globs(seq![control_glob()])
    }
}

/// Whether an ignore file with these `contents` excludes `path`: whether
/// one of the globs it compiles to matches.
pub open spec fn ignores(contents: Seq<char>, path: Seq<char>) -> bool {
    any_glob_matches(ignore_globs(contents), path)
}

/// Expands one line of an ignore file into its globs.
pub fn expand_pattern(line: &str) -> (globs: Vec<String>)
    ensures
        views(globs@) == expand(line@),
{
    let pat = trim_str(line);
    let mut globs: Vec<String> = Vec::new();
    let chars = chars_of(pat);
    if chars.len() == 0 || chars[0] == '#' {
        assert(views(globs@) == Seq::<Seq<char>>::empty());
        return globs;
    }
    proof {
        reveal_strlit("/**");
        reveal_strlit("**/");
        assert("/**"@ == everything_beneath());
        assert("**/"@ == at_any_depth());
    }
    if chars[chars.len() - 1] == '/' {
        let dir = strip_trailing_str(pat, '/');
        let contents = String::from_str(dir).concat("/**");
        let deep_contents = String::from_str("**/").concat(dir).concat("/**");
        let itself = String::from_str(dir);
        let deep = String::from_str("**/").concat(dir);
        globs.push(contents);
        globs.push(deep_contents);
        globs.push(itself);
        globs.push(deep);
        assert(views(globs@) == expand(line@));
    } else {
        let itself = String::from_str(pat);
        let deep = String::from_str("**/").concat(pat);
        globs.push(itself);
        globs.push(deep);
        assert(views(globs@) == expand(line@));
    }
    globs
}

/// Reads the text of an ignore file: the globs of its lines, in order,
/// followed by the glob of the control directory.
pub fn ignore_patterns(contents: &str) -> (globs: Vec<String>)
    ensures
        views(globs@) == candidate_globs(contents@),
{
    let lines = split_str(contents, '\n');
    let mut globs: Vec<String> = Vec::new();
    let mut i: usize = 0;
    assert(views(lines@).take(0) == Seq::<Seq<char>>::empty());
    assert(views(globs@) == Seq::<Seq<char>>::empty());
    while i < lines.len()
        invariant
            0 <= i <= lines.len(),
            views(globs@) == expand_all(views(lines@).take(i as int)),
        decreases lines.len() - i,
    {
        let mut more = expand_pattern(lines[i].as_str());
        proof {
            let done = views(lines@).take(i + 1);
            assert(done.drop_last() == views(lines@).take(i as int));
            assert(done.last() == lines@[i as int]@);
            lemma_views_concat(globs@, more@);
        }
        globs.append(&mut more);
        i += 1;
    }
    assert(views(lines@).take(lines.len() as int) == views(lines@));
    let control = String::from_str(".genie/**");
    proof {
        reveal_strlit(".genie/**");
        assert(control@ == control_glob());
        assert(views(globs@.push(control)) == views(globs@).push(control@));
    }
    globs.push(control);
    globs
}

/// Compiles `globs` into one set, if they compile together. A glob that
/// does not parse is left out; the others enter the set in order.
pub fn try_compile_globs(globs: &Vec<String>) -> (r: Option<GlobSet>)
    ensures
        r.is_some() == set_compiles(well_formed(views(globs@))),
        r matches Some(set) ==> forall|p: Seq<char>| #[trigger]
            set_matches(set, p) == any_glob_matches(well_formed(views(globs@)), p),
{
    let mut builder = GlobSetBuilder::new();
    let mut i: usize = 0;
    proof {
        reveal(Seq::filter);
        assert(views(globs@).take(0) == Seq::<Seq<char>>::empty());
        assert(builder_globs(builder) == Seq::<Seq<char>>::empty());
    }
    while i < globs.len()
        invariant
            0 <= i <= globs.len(),
            builder_globs(builder) == well_formed(views(globs@).take(i as int)),
            filled_literally(builder),
        decreases globs.len() - i,
    {
        proof {
            let done = views(globs@).take(i + 1);
            assert(done.drop_last() == views(globs@).take(i as int));
            assert(done.last() == globs@[i as int]@);
            reveal(Seq::filter);
        }
        match parse_glob(globs[i].as_str(), true) {
            Ok(glob) => {
                builder_add(&mut builder, glob);
            },
            Err(_) => {},
        }
        i += 1;
    }
    assert(views(globs@).take(globs.len() as int) == views(globs@));
    match builder.build() {
        Ok(set) => {
            assert forall|p: Seq<char>| #[trigger]
                set_matches(set, p) == any_glob_matches(well_formed(views(globs@)), p) by {
                assert(any_glob_matches(builder_globs(builder), p) == (exists|i: int|
                    0 <= i < builder_globs(builder).len() && glob_matches(
                        #[trigger] builder_globs(builder)[i],
                        p,
                    )));
            }
            Some(set)
        },
        Err(_) => None,
    }
}

/// Compiles `globs` into one set. A glob that does not parse is left out;
/// the others enter the set in order. Where they do not compile together
/// the set is empty.
pub fn compile_globs(globs: &Vec<String>) -> (set: GlobSet)
    ensures
        forall|p: Seq<char>| #[trigger]
            set_matches(set, p) == any_glob_matches(compiled_globs(views(globs@)), p),
{
    match try_compile_globs(globs) {
        Some(set) => set,
        None => GlobSet::empty(),
    }
}

/// Compiles the text of an ignore file into the set of globs that decides
/// which paths are excluded. The glob of the control directory is among
/// them whatever the text says; an ignore file that is absent counts as an
/// empty one. Lines that are no globs are passed over. Should the globs not
/// compile together, the set is that of the control directory's glob alone.
pub fn build_ignore_set(contents: &str) -> (set: GlobSet)
    ensures
        forall|p: Seq<char>| #[trigger] set_matches(set, p) == ignores(contents@, p),
{
    let globs = ignore_patterns(contents);
    match try_compile_globs(&globs) {
        Some(set) => set,
        None => {
            let mut alone: Vec<String> = Vec::new();
            let control = String::from_str(".genie/**");
            proof {
                reveal_strlit(".genie/**");
                assert(control@ == control_glob());
                assert(views(alone@.push(control)) =~= seq![control_glob()]);
            }
            alone.push(control);
            compile_globs(&alone)
        },
    }
}

/// Tests whether the ignore set excludes `rel_path`, a path relative to the
/// project root: whether the set matches it.
pub fn is_ignored(set: &GlobSet, rel_path: &str) -> (r: bool)
    ensures
        r == set_matches(*set, rel_path@),
{
    set_is_match(set, rel_path)
}

/// A line that names a directory, `name/`, stands for four globs: `name/**`
/// and `**/name/**` for what lies in a directory of that name at the root
/// or at any depth, `name` and `**/name` for the directory itself.
pub proof fn lemma_directory_line(name: Seq<char>)
    requires
        name.len() > 0,
        !is_space(name[0]),
        name[0] != '#',
        name.last() != '/',
    ensures
        expand(name.push('/')) == seq![
            name + everything_beneath(),
            at_any_depth() + name + everything_beneath(),
            name,
            at_any_depth() + name,
        ],
{
    let line = name.push('/');
    assert(line[0] == name[0]);
    assert(trim_start(line) == line);
    assert(line.last() == '/');
    assert(trim_end(line) == line);
    assert(line.drop_last() == name);
    assert(strip_trailing(name, '/') == name);
    assert(strip_trailing(line, '/') == name);
}

/// A line that names no directory stands for two globs: itself, and itself
/// below any directory.
pub proof fn lemma_file_line(pattern: Seq<char>)
    requires
        pattern.len() > 0,
        !is_space(pattern[0]),
        !is_space(pattern.last()),
        pattern[0] != '#',
        pattern.last() != '/',
    ensures
        expand(pattern) == seq![pattern, at_any_depth() + pattern],
{
    assert(trim_start(pattern) == pattern);
    assert(trim_end(pattern) == pattern);
}

/// Matching does not depend on the order of the globs, nor on how often
/// one occurs: sets of the same globs exclude the same paths.
pub proof fn lemma_matching_ignores_order(a: Seq<Seq<char>>, b: Seq<Seq<char>>, path: Seq<char>)
    requires
        forall|g: Seq<char>| a.contains(g) <==> b.contains(g),
    ensures
        any_glob_matches(a, path) == any_glob_matches(b, path),
{
    if any_glob_matches(a, path) {
        let i = choose|i: int| 0 <= i < a.len() && glob_matches(#[trigger] a[i], path);
        assert(a.contains(a[i]));
        let j = choose|j: int| 0 <= j < b.len() && b[j] == a[i];
        assert(glob_matches(b[j], path));
    }
    if any_glob_matches(b, path) {
        let i = choose|i: int| 0 <= i < b.len() && glob_matches(#[trigger] b[i], path);
        assert(b.contains(b[i]));
        let j = choose|j: int| 0 <= j < a.len() && a[j] == b[i];
        assert(glob_matches(a[j], path));
    }
}

/// The views of two sequences of strings, one after the other, are the
/// views of their concatenation.
proof fn lemma_views_concat(a: Seq<String>, b: Seq<String>)
    ensures
        views(a + b) == views(a) + views(b),
{
    assert(views(a + b) =~= views(a) + views(b));
}

/// A glob of one of the lines is among the globs of all lines.
pub proof fn lemma_expand_all_holds(lines: Seq<Seq<char>>, i: int, glob: Seq<char>)
    requires
        0 <= i < lines.len(),
        expand(lines[i]).contains(glob),
    ensures
        expand_all(lines).contains(glob),
    decreases lines.len(),
{
    let rest = lines.drop_last();
    let before = expand_all(rest);
    let all = expand_all(lines);
    if i < lines.len() - 1 {
        assert(rest[i] == lines[i]);
        lemma_expand_all_holds(rest, i, glob);
        let k = choose|k: int| 0 <= k < before.len() && before[k] == glob;
        assert(all[k] == glob);
    } else {
        let last = expand(lines.last());
        let k = choose|k: int| 0 <= k < last.len() && last[k] == glob;
        assert(all[before.len() + k] == glob);
    }
}

/// A glob that parses is among the well-formed ones.
pub proof fn lemma_well_formed_holds(globs: Seq<Seq<char>>, glob: Seq<char>)
    requires
        globs.contains(glob),
    ensures
        glob_parses(glob) ==> well_formed(globs).contains(glob),
    decreases globs.len(),
{
    reveal(Seq::filter);
    let rest = globs.drop_last();
    if glob_parses(glob) {
        if globs.last() == glob {
            let kept = well_formed(globs);
            assert(kept[kept.len() - 1] == glob);
        } else {
            let i = choose|i: int| 0 <= i < globs.len() && globs[i] == glob;
            assert(rest[i] == glob);
            lemma_well_formed_holds(rest, glob);
            let k = choose|k: int| 0 <= k < well_formed(rest).len() && well_formed(rest)[k] == glob;
            assert(well_formed(globs)[k] == glob);
        }
    }
}

/// Every glob of every line of an ignore file is used: a path that one of
/// them matches is excluded, provided that the glob parses and that the
/// globs of the file compile together. With `lemma_directory_line` this
/// is what the library does for a line `name/`: it excludes whatever
/// `name/**`, `**/name/**`, `name` or `**/name` matches.
pub proof fn lemma_line_excludes(contents: Seq<char>, i: int, glob: Seq<char>, path: Seq<char>)
    requires
        0 <= i < split(contents, '\n').len(),
        expand(split(contents, '\n')[i]).contains(glob),
    ensures
        glob_parses(glob) && glob_matches(glob, path) && set_compiles(
            well_formed(candidate_globs(contents)),
        ) ==> ignores(contents, path),
{
    let lines = split(contents, '\n');
    let all = candidate_globs(contents);
    lemma_expand_all_holds(lines, i, glob);
    let k = choose|k: int| 0 <= k < expand_all(lines).len() && expand_all(lines)[k] == glob;
    assert(all[k] == glob);
    lemma_well_formed_holds(all, glob);
    if glob_parses(glob) && glob_matches(glob, path) && set_compiles(well_formed(all)) {
        let kept = well_formed(all);
        let j = choose|j: int| 0 <= j < kept.len() && kept[j] == glob;
        assert(glob_matches(kept[j], path));
    }
}

/// Whatever an ignore file holds, what the glob of the control directory
/// matches is excluded, provided that this glob parses and compiles.
pub proof fn lemma_control_directory_is_excluded(contents: Seq<char>, path: Seq<char>)
    ensures
        glob_parses(control_glob()) && set_compiles(seq![control_glob()]) && glob_matches(
            control_glob(),
            path,
        ) ==> ignores(contents, path),
{
    let all = candidate_globs(contents);
    assert(all[all.len() - 1] == control_glob());
    lemma_well_formed_holds(all, control_glob());
    if glob_parses(control_glob()) && set_compiles(seq![control_glob()]) && glob_matches(
        control_glob(),
        path,
    ) {
        if set_compiles(well_formed(all)) {
            let kept = well_formed(all);
            let j = choose|j: int| 0 <= j < kept.len() && kept[j] == control_glob();
            assert(glob_matches(kept[j], path));
        } else {
            let alone = seq![control_glob()];
            reveal_with_fuel(Seq::filter, 2);
            assert(alone.drop_last() =~= Seq::<Seq<char>>::empty());
            assert(well_formed(alone) =~= alone);
            assert(glob_matches(alone[0], path));
        }
    }
}

} // verus!
