//! Text primitives shared by the ignore-file reader and the path handling:
//! splitting at a separator, trimming, the segments of a path, and a path
//! relative to a root.

use vstd::prelude::*;

verus! {

/// The views of a sequence of strings, element by element.
pub open spec fn views(v: Seq<String>) -> Seq<Seq<char>> {
    Seq::new(v.len(), |i: int| v[i]@)
}

/// Whether `c` is white space: the code points that carry Unicode's
/// `White_Space` property.
pub open spec fn is_space(c: char) -> bool {
    let u = c as u32;
    ||| 0x09 <= u <= 0x0d
    ||| u == 0x20
    ||| u == 0x85
    ||| u == 0xa0
    ||| u == 0x1680
    ||| 0x2000 <= u <= 0x200a
    ||| u == 0x2028
    ||| u == 0x2029
    ||| u == 0x202f
    ||| u == 0x205f
    ||| u == 0x3000
}

/// `s` without its leading white space.
pub open spec fn trim_start(s: Seq<char>) -> Seq<char>
    decreases s.len(),
{
    if s.len() > 0 && is_space(s[0]) {
        trim_start(s.drop_first())
    } else {
        s
    }
}

/// `s` without its trailing white space.
pub open spec fn trim_end(s: Seq<char>) -> Seq<char>
    decreases s.len(),
{
    if s.len() > 0 && is_space(s.last()) {
        trim_end(s.drop_last())
    } else {
        s
    }
}

/// `s` without leading and trailing white space.
pub open spec fn trim(s: Seq<char>) -> Seq<char> {
    trim_end(trim_start(s))
}

/// `s` without any run of `c` at its end.
pub open spec fn strip_trailing(s: Seq<char>, c: char) -> Seq<char>
    decreases s.len(),
{
    if s.len() > 0 && s.last() == c {
        strip_trailing(s.drop_last(), c)
    } else {
        s
    }
}

/// How many characters of `s` stand before the first `sep`; the length of
/// `s` when it holds no `sep`.
pub open spec fn prefix_len(s: Seq<char>, sep: char) -> int
    decreases s.len(),
{
    if s.len() == 0 || s[0] == sep {
        0
    } else {
        1 + prefix_len(s.drop_first(), sep)
    }
}

/// The pieces of `s` between occurrences of `sep`, in order. There is always
/// one piece more than there are separators, so pieces may be empty.
pub open spec fn split(s: Seq<char>, sep: char) -> Seq<Seq<char>>
    decreases s.len(),
{
    let n = prefix_len(s, sep);
    if 0 <= n < s.len() {
        seq![s.take(n)] + split(s.skip(n + 1), sep)
    } else {
        seq![s]
    }
}

/// `pieces` put together again, with one `sep` between each two.
pub open spec fn join(pieces: Seq<Seq<char>>, sep: char) -> Seq<char>
    decreases pieces.len(),
{
    if pieces.len() == 0 {
        seq![]
    } else if pieces.len() == 1 {
        pieces[0]
    } else {
        pieces[0] + seq![sep] + join(pieces.drop_first(), sep)
    }
}

/// Whether `name` is one of the `/`-separated segments of `path`.
pub open spec fn has_segment(path: Seq<char>, name: Seq<char>) -> bool {
    split(path, '/').contains(name)
}

/// The last `/`-separated segment of `path`: the name of what the path
/// leads to.
pub open spec fn last_segment(path: Seq<char>) -> Seq<char> {
    split(path, '/').last()
}

/// Whether every `/`-separated segment of `path` has a name: the path is
/// not empty, neither begins nor ends with `/`, and has no `/` twice in a
/// row.
pub open spec fn every_segment_named(path: Seq<char>) -> bool {
    forall|i: int| 0 <= i < split(path, '/').len() ==> (#[trigger] split(path, '/')[i]).len() > 0
}

/// What every path under `root` begins with: `root`, without the slashes it
/// may end with, and one `/`.
pub open spec fn path_prefix(root: Seq<char>) -> Seq<char> {
    strip_trailing(root, '/').push('/')
}

/// Whether `path` begins with `prefix`.
pub open spec fn starts_with(path: Seq<char>, prefix: Seq<char>) -> bool {
    prefix.len() <= path.len() && path.take(prefix.len() as int) == prefix
}

/// `path` relative to `root`: what follows the prefix of `root`, provided
/// that `path` begins with that prefix and that every segment of what
/// follows has a name. Otherwise `path` is no path under `root`.
pub open spec fn relative_to(root: Seq<char>, path: Seq<char>) -> Option<Seq<char>> {
    let prefix = path_prefix(root);
    if starts_with(path, prefix) && every_segment_named(path.skip(prefix.len() as int)) {
        Some(path.skip(prefix.len() as int))
    } else {
        None
    }
}

/// The characters of `s`, in order.
pub fn chars_of(s: &str) -> (v: Vec<char>)
    ensures
        v@ == s@,
{
    let mut v: Vec<char> = Vec::new();
    for c in it: s.chars()
        invariant
            v@ == it.seq().take(it.index() as int),
            it.seq() == s@,
    {
        v.push(c);
    }
    v
}

/// Tests a character for white space.
pub fn is_whitespace(c: char) -> (r: bool)
    ensures
        r == is_space(c),
{
    ('\u{9}' <= c && c <= '\u{d}') || c == ' ' || c == '\u{85}' || c == '\u{a0}' || c
        == '\u{1680}' || ('\u{2000}' <= c && c <= '\u{200a}') || c == '\u{2028}' || c
        == '\u{2029}' || c == '\u{202f}' || c == '\u{205f}' || c == '\u{3000}'
}

/// Removes leading and trailing white space.
pub fn trim_str(s: &str) -> (r: &str)
    ensures
        r@ == trim(s@),
{
    let chars = chars_of(s);
    let n = chars.len();
    let mut a: usize = 0;
    assert(chars@.skip(0) == chars@);
    while a < n && is_whitespace(chars[a])
        invariant
            0 <= a <= n,
            n == chars.len(),
            trim_start(chars@) == trim_start(chars@.skip(a as int)),
        decreases n - a,
    {
        proof {
            let t = chars@.skip(a as int);
            assert(t[0] == chars@[a as int]);
            assert(t.drop_first() == chars@.skip(a + 1));
        }
        a += 1;
    }
    proof {
        let t = chars@.skip(a as int);
        if a < n {
            assert(t[0] == chars@[a as int]);
        }
        assert(trim_start(chars@) == t);
    }
    let mut b: usize = n;
    assert(chars@.subrange(a as int, n as int) == chars@.skip(a as int));
    while b > a && is_whitespace(chars[b - 1])
        invariant
            a <= b <= n,
            n == chars.len(),
            trim_end(chars@.skip(a as int)) == trim_end(chars@.subrange(a as int, b as int)),
        decreases b - a,
    {
        proof {
            let t = chars@.subrange(a as int, b as int);
            assert(t.last() == chars@[b - 1]);
            assert(t.drop_last() == chars@.subrange(a as int, b - 1));
        }
        b -= 1;
    }
    proof {
        let t = chars@.subrange(a as int, b as int);
        if b > a {
            assert(t.last() == chars@[b - 1]);
        }
        assert(trim_end(t) == t);
    }
    s.substring_char(a, b)
}

/// Removes every `c` from the end of `s`.
pub fn strip_trailing_str(s: &str, c: char) -> (r: &str)
    ensures
        r@ == strip_trailing(s@, c),
{
    let chars = chars_of(s);
    let mut b: usize = chars.len();
    assert(chars@.take(b as int) == chars@);
    while b > 0 && chars[b - 1] == c
        invariant
            0 <= b <= chars.len(),
            strip_trailing(chars@, c) == strip_trailing(chars@.take(b as int), c),
        decreases b,
    {
        proof {
            let t = chars@.take(b as int);
            assert(t.last() == chars@[b - 1]);
            assert(t.drop_last() == chars@.take(b - 1));
        }
        b -= 1;
    }
    proof {
        let t = chars@.take(b as int);
        if b > 0 {
            assert(t.last() == chars@[b - 1]);
        }
        assert(strip_trailing(t, c) == t);
    }
    s.substring_char(0, b)
}

/// Splits `s` at every `sep`.
pub fn split_str(s: &str, sep: char) -> (pieces: Vec<String>)
    ensures
        views(pieces@) == split(s@, sep),
{
    let chars = chars_of(s);
    let n = chars.len();
    let mut pieces: Vec<String> = Vec::new();
    let mut start: usize = 0;
    let mut i: usize = 0;
    assert(s@.skip(0) == s@);
    assert(views(pieces@) + split(s@, sep) == split(s@, sep));
    while i < n
        invariant
            0 <= start <= i <= n,
            n == chars.len(),
            chars@ == s@,
            forall|j: int| start <= j < i ==> chars@[j] != sep,
            split(s@, sep) == views(pieces@) + split(s@.skip(start as int), sep),
        decreases n - i,
    {
        if chars[i] == sep {
            let piece = s.substring_char(start, i).to_owned();
            proof {
                let t = s@.skip(start as int);
                assert forall|j: int| 0 <= j < i - start implies t[j] != sep by {
                    assert(t[j] == chars@[start + j]);
                }
                lemma_prefix_len(t, sep, i - start);
                assert(t.take(i - start) == s@.subrange(start as int, i as int));
                assert(t.skip(i - start + 1) == s@.skip(i + 1));
                assert(views(pieces@.push(piece)) == views(pieces@) + seq![piece@]);
            }
            pieces.push(piece);
            start = i + 1;
        }
        i += 1;
    }
    let piece = s.substring_char(start, n).to_owned();
    proof {
        let t = s@.skip(start as int);
        assert forall|j: int| 0 <= j < n - start implies t[j] != sep by {
            assert(t[j] == chars@[start + j]);
        }
        lemma_prefix_len(t, sep, n - start);
        assert(t == s@.subrange(start as int, n as int));
        assert(views(pieces@.push(piece)) == views(pieces@) + seq![piece@]);
    }
    pieces.push(piece);
    pieces
}

/// Tests whether `name` is one of the `/`-separated segments of `path`.
pub fn path_has_segment(path: &str, name: &str) -> (r: bool)
    ensures
        r == has_segment(path@, name@),
{
    let pieces = split_str(path, '/');
    let wanted = name.to_owned();
    let mut i: usize = 0;
    while i < pieces.len()
        invariant
            0 <= i <= pieces.len(),
            wanted@ == name@,
            views(pieces@) == split(path@, '/'),
            forall|j: int| 0 <= j < i ==> views(pieces@)[j] != name@,
        decreases pieces.len() - i,
    {
        if pieces[i] == wanted {
            assert(views(pieces@)[i as int] == name@);
            return true;
        }
        i += 1;
    }
    false
}

/// The name of what `path` leads to: its last segment.
pub fn file_name(path: &str) -> (name: String)
    ensures
        name@ == last_segment(path@),
{
    let mut pieces = split_str(path, '/');
    proof {
        lemma_join_split(path@, '/');
    }
    let n = pieces.len();
    assert(views(pieces@).last() == pieces@[n - 1]@);
    pieces.pop().unwrap()
}

/// Makes `path` relative to `root`, if it is a path under `root`.
pub fn relative_path(root: &str, path: &str) -> (r: Option<String>)
    ensures
        match r {
            Some(rel) => relative_to(root@, path@) == Some(rel@),
            None => relative_to(root@, path@).is_none(),
        },
{
    let base = chars_of(strip_trailing_str(root, '/'));
    let whole = chars_of(path);
    let n = base.len();
    let ghost prefix = path_prefix(root@);
    assert(prefix == base@.push('/'));
    if whole.len() <= n {
        return None;
    }
    let mut i: usize = 0;
    while i < n
        invariant
            0 <= i <= n,
            n == base@.len(),
            n < whole@.len(),
            whole@ == path@,
            prefix == base@.push('/'),
            prefix == path_prefix(root@),
            forall|j: int| 0 <= j < i ==> whole@[j] == base@[j],
        decreases n - i,
    {
        if whole[i] != base[i] {
            assert(whole@.take(prefix.len() as int)[i as int] != prefix[i as int]);
            return None;
        }
        i += 1;
    }
    if whole[n] != '/' {
        assert(whole@.take(prefix.len() as int)[n as int] != prefix[n as int]);
        return None;
    }
    assert(whole@.take(prefix.len() as int) =~= prefix);
    let rel = path.substring_char(n + 1, whole.len());
    assert(rel@ == path@.skip(prefix.len() as int));
    let pieces = split_str(rel, '/');
    let mut k: usize = 0;
    while k < pieces.len()
        invariant
            0 <= k <= pieces.len(),
            views(pieces@) == split(rel@, '/'),
            prefix == path_prefix(root@),
            starts_with(path@, prefix),
            rel@ == path@.skip(prefix.len() as int),
            forall|j: int| 0 <= j < k ==> (#[trigger] split(rel@, '/')[j]).len() > 0,
        decreases pieces.len() - k,
    {
        if pieces[k].as_str().is_empty() {
            assert(split(rel@, '/')[k as int].len() == 0);
            return None;
        }
        assert(split(rel@, '/')[k as int] == pieces@[k as int]@);
        k += 1;
    }
    Some(rel.to_owned())
}

/// Tests whether two texts are the same.
pub fn same_text(a: &str, b: &str) -> (r: bool)
    ensures
        r == (a@ == b@),
{
    a.to_owned() == b.to_owned()
}

/// `prefix_len` lies within `s`, no separator stands before it, and one
/// stands at it unless it is the end.
pub proof fn lemma_prefix_bounds(s: Seq<char>, sep: char)
    ensures
        0 <= prefix_len(s, sep) <= s.len(),
        forall|j: int| 0 <= j < prefix_len(s, sep) ==> s[j] != sep,
        prefix_len(s, sep) < s.len() ==> s[prefix_len(s, sep)] == sep,
    decreases s.len(),
{
    if s.len() > 0 && s[0] != sep {
        let t = s.drop_first();
        lemma_prefix_bounds(t, sep);
        assert forall|j: int| 0 <= j < prefix_len(s, sep) implies s[j] != sep by {
            if j > 0 {
                assert(s[j] == t[j - 1]);
            }
        }
    }
}

/// `prefix_len` is the position of the first separator.
pub proof fn lemma_prefix_len(s: Seq<char>, sep: char, k: int)
    requires
        0 <= k <= s.len(),
        forall|j: int| 0 <= j < k ==> s[j] != sep,
        k < s.len() ==> s[k] == sep,
    ensures
        prefix_len(s, sep) == k,
    decreases k,
{
    if k > 0 {
        let t = s.drop_first();
        assert forall|j: int| 0 <= j < k - 1 implies t[j] != sep by {
            assert(t[j] == s[j + 1]);
        }
        lemma_prefix_len(t, sep, k - 1);
    }
}

/// No piece of a split holds the separator.
pub proof fn lemma_split_pieces_hold_no_separator(s: Seq<char>, sep: char)
    ensures
        forall|i: int| 0 <= i < split(s, sep).len() ==> !(#[trigger] split(s, sep)[i]).contains(sep),
    decreases s.len(),
{
    let n = prefix_len(s, sep);
    lemma_prefix_bounds(s, sep);
    if 0 <= n < s.len() {
        let rest = split(s.skip(n + 1), sep);
        lemma_split_pieces_hold_no_separator(s.skip(n + 1), sep);
        assert forall|i: int| 0 <= i < split(s, sep).len() implies !(#[trigger] split(
            s,
            sep,
        )[i]).contains(sep) by {
            if i > 0 {
                assert(split(s, sep)[i] == rest[i - 1]);
            }
        }
    }
}

/// Splitting loses nothing: the pieces, put together again with the
/// separator between them, are the text that was split.
pub proof fn lemma_join_split(s: Seq<char>, sep: char)
    ensures
        split(s, sep).len() >= 1,
        join(split(s, sep), sep) == s,
    decreases s.len(),
{
    let n = prefix_len(s, sep);
    lemma_prefix_bounds(s, sep);
    if 0 <= n < s.len() {
        let rest = split(s.skip(n + 1), sep);
        lemma_join_split(s.skip(n + 1), sep);
        let pieces = split(s, sep);
        assert(pieces.drop_first() =~= rest);
        assert(pieces[0] == s.take(n));
        assert(s.take(n) + seq![sep] + s.skip(n + 1) =~= s);
    }
}

/// A path made relative to a root is what was left of the whole path
/// after the root's prefix. It is not empty and does not begin with `/`.
pub proof fn lemma_relative_to(root: Seq<char>, path: Seq<char>)
    requires
        relative_to(root, path).is_some(),
    ensures
        path == path_prefix(root) + relative_to(root, path).unwrap(),
        every_segment_named(relative_to(root, path).unwrap()),
        relative_to(root, path).unwrap().len() > 0,
        relative_to(root, path).unwrap()[0] != '/',
{
    let prefix = path_prefix(root);
    let rel = relative_to(root, path).unwrap();
    assert(path =~= path.take(prefix.len() as int) + path.skip(prefix.len() as int));
    lemma_join_split(rel, '/');
    lemma_prefix_bounds(rel, '/');
    let first = split(rel, '/')[0];
    assert(first.len() > 0);
    if prefix_len(rel, '/') < rel.len() {
        assert(first == rel.take(prefix_len(rel, '/')));
    } else {
        assert(first == rel);
    }
}

} // verus!
