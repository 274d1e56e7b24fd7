//! Names of parameters and paths of fields.

use vstd::prelude::*;

use crate::schema::{ExprKind, FieldRefExpr};
use crate::text::{
    append_char_at, append_dot, chars_of, dot_join, dotted, has_prefix, nonempty, same_text,
    skip_chars, split, DOT,
};

verus! {

/// The texts that a sequence of strings holds.
pub open spec fn texts(strings: Seq<String>) -> Seq<Seq<char>> {
    strings.map_values(|s: String| s@)
}

/// The full name of the parameter at `path` below `owner`.
pub open spec fn canonical(owner: Seq<char>, path: Seq<char>) -> Seq<char> {
    if path.len() == 0 || path == owner {
        owner
    } else if owner.push(DOT).is_prefix_of(path) {
        path
    } else {
        owner.push(DOT) + path
    }
}

/// Returns the full name of the parameter at `path` below `owner`.
///
/// A path that already starts with its owner is kept as it is.
pub fn canonical_param_name(owner: &str, path: &str) -> (name: String)
    ensures
        name@ == canonical(owner@, path@),
{
    if path.is_empty() || same_text(path, owner) {
        return String::from_str(owner);
    }
    let mut stem = String::from_str(owner);
    append_dot(&mut stem);
    if has_prefix(path, stem.as_str()) {
        String::from_str(path)
    } else {
        stem.append(path);
        stem
    }
}

/// `s` without the leading steps to a parent.
pub open spec fn without_parents(s: Seq<char>) -> Seq<char>
    decreases s.len(),
{
    if s.len() >= 3 && s[0] == '.' && s[1] == '.' && s[2] == '/' {
        without_parents(s.skip(3))
    } else {
        s
    }
}

/// `s` without one leading step to the current place.
pub open spec fn without_current(s: Seq<char>) -> Seq<char> {
    if s.len() >= 2 && s[0] == '.' && s[1] == '/' {
        s.skip(2)
    } else {
        s
    }
}

/// `s` with a dot for every separator: a pair of colons, a slash or an opening bracket. Closing
/// brackets are taken out.
pub open spec fn unified(s: Seq<char>) -> Seq<char>
    decreases s.len(),
{
    if s.len() == 0 {
        Seq::empty()
    } else if s.len() >= 2 && s[0] == ':' && s[1] == ':' {
        seq![DOT] + unified(s.skip(2))
    } else if s[0] == '/' || s[0] == '[' {
        seq![DOT] + unified(s.skip(1))
    } else if s[0] == ']' {
        unified(s.skip(1))
    } else {
        seq![s[0]] + unified(s.skip(1))
    }
}

/// The path that `s` stands for: relative steps and empty segments dropped, one dot between
/// segments.
pub open spec fn normalized(s: Seq<char>) -> Seq<char> {
    dotted(unified(without_current(without_parents(s))))
}

/// A text always has a segment.
pub proof fn lemma_split_len(s: Seq<char>, sep: char)
    ensures
        split(s, sep).len() >= 1,
    decreases s.len(),
{
    if s.len() > 0 {
        lemma_split_len(s.drop_last(), sep);
    }
}

/// How the segments that hold characters change when one segment follows.
pub proof fn lemma_nonempty_push(segments: Seq<Seq<char>>, segment: Seq<char>)
    ensures
        nonempty(segments.push(segment)) == (if segment.len() > 0 {
            nonempty(segments).push(segment)
        } else {
            nonempty(segments)
        }),
{
    reveal(Seq::filter);
    assert(segments.push(segment).drop_last() =~= segments);
}

/// An empty text has no segment that holds characters.
pub proof fn lemma_no_segments()
    ensures
        nonempty(split(Seq::empty(), DOT)).len() == 0,
        split(Seq::empty(), DOT).last().len() == 0,
        dotted(Seq::empty()) == Seq::<char>::empty(),
{
    reveal(Seq::filter);
    lemma_nonempty_push(Seq::empty(), Seq::empty());
    assert(Seq::<Seq<char>>::empty().push(Seq::empty()) =~= seq![Seq::<char>::empty()]);
    assert(dotted(Seq::empty()) =~= Seq::<char>::empty());
}

/// How a join changes when one segment follows.
pub proof fn lemma_join_push(segments: Seq<Seq<char>>, segment: Seq<char>)
    ensures
        dot_join(segments.push(segment)) == (if segments.len() == 0 {
            segment
        } else {
            dot_join(segments).push(DOT) + segment
        }),
{
    assert(segments.push(segment).drop_last() =~= segments);
}

/// How the dotted form changes when one character follows.
pub proof fn lemma_dotted_push(s: Seq<char>, c: char)
    ensures
        c == DOT ==> {
            &&& dotted(s.push(c)) == dotted(s)
            &&& nonempty(split(s.push(c), DOT)).len() == nonempty(split(s, DOT)).len()
            &&& split(s.push(c), DOT).last().len() == 0
        },
        c != DOT ==> {
            &&& dotted(s.push(c)) == (if split(s, DOT).last().len() > 0 || nonempty(
                split(s, DOT),
            ).len() == 0 {
                dotted(s).push(c)
            } else {
                dotted(s).push(DOT).push(c)
            })
            &&& nonempty(split(s.push(c), DOT)).len() > 0
            &&& split(s.push(c), DOT).last().len() > 0
        },
{
    lemma_split_len(s, DOT);
    let parts = split(s, DOT);
    assert(s.push(c).drop_last() =~= s);
    if c == DOT {
        lemma_nonempty_push(parts, Seq::empty());
    } else {
        let start = parts.drop_last();
        let last = parts.last();
        assert(start.push(last) =~= parts);
        lemma_nonempty_push(start, last);
        lemma_nonempty_push(start, last.push(c));
        lemma_join_push(nonempty(start), last.push(c));
        if last.len() > 0 {
            lemma_join_push(nonempty(start), last);
            if nonempty(start).len() > 0 {
                assert(dot_join(nonempty(start)).push(DOT) + last.push(c) =~= (dot_join(
                    nonempty(start),
                ).push(DOT) + last).push(c));
            }
        } else {
            assert(last.push(c) =~= seq![c]);
            if nonempty(start).len() > 0 {
                assert(dot_join(nonempty(start)).push(DOT) + seq![c] =~= dot_join(
                    nonempty(start),
                ).push(DOT).push(c));
            } else {
                assert(nonempty(start) =~= Seq::<Seq<char>>::empty());
                assert(dotted(s) =~= Seq::<char>::empty());
                assert(seq![c] =~= dotted(s).push(c));
            }
        }
    }
}

/// Returns the path that `input` stands for.
///
/// Dots at either end need no care of their own: they bound empty segments, which are dropped.
pub fn normalize_binding_path(input: &str) -> (path: String)
    ensures
        path@ == normalized(input@),
{
    let chars = chars_of(input);
    let len: usize = chars.len();
    let mut i: usize = 0;
    assert(input@.skip(0) =~= input@);
    while len - i >= 3 && chars[i] == '.' && chars[i + 1] == '.' && chars[i + 2] == '/'
        invariant
            i <= len == chars.len(),
            chars@ == input@,
            without_parents(input@) == without_parents(input@.skip(i as int)),
        decreases len - i,
    {
        assert(input@.skip(i as int).skip(3) =~= input@.skip(i + 3));
        i = i + 3;
    }
    if len - i >= 2 && chars[i] == '.' && chars[i + 1] == '/' {
        assert(input@.skip(i as int).skip(2) =~= input@.skip(i + 2));
        i = i + 2;
    }
    let ghost body = input@.skip(i as int);
    assert(body == without_current(without_parents(input@)));
    let mut path = String::new();
    let mut started: bool = false;
    let mut fresh: bool = true;
    let ghost mut done: Seq<char> = Seq::empty();
    assert(unified(body) =~= done + unified(input@.skip(i as int)));
    proof {
        lemma_no_segments();
    }
    while i < len
        invariant
            i <= len == chars.len(),
            chars@ == input@,
            unified(body) == done + unified(input@.skip(i as int)),
            path@ == dotted(done),
            started == (nonempty(split(done, DOT)).len() > 0),
            fresh == (split(done, DOT).last().len() == 0),
        decreases len - i,
    {
        let c = chars[i];
        let ghost rest = input@.skip(i as int);
        assert(rest[0] == c);
        assert(rest.skip(1) =~= input@.skip(i + 1));
        if c == ':' && len - i >= 2 && chars[i + 1] == ':' {
            assert(rest.skip(2) =~= input@.skip(i + 2));
            proof {
                lemma_dotted_push(done, DOT);
                assert(done + (seq![DOT] + unified(rest.skip(2))) =~= done.push(DOT) + unified(
                    rest.skip(2),
                ));
                done = done.push(DOT);
            }
            fresh = true;
            i = i + 2;
        } else if c == '/' || c == '[' || c == DOT {
            proof {
                lemma_dotted_push(done, DOT);
                assert(done + (seq![DOT] + unified(rest.skip(1))) =~= done.push(DOT) + unified(
                    rest.skip(1),
                ));
                done = done.push(DOT);
            }
            fresh = true;
            i = i + 1;
        } else if c == ']' {
            i = i + 1;
        } else {
            proof {
                lemma_dotted_push(done, c);
                assert(done + (seq![c] + unified(rest.skip(1))) =~= done.push(c) + unified(
                    rest.skip(1),
                ));
            }
            if fresh && started {
                append_dot(&mut path);
            }
            append_char_at(&mut path, input, i);
            proof {
                done = done.push(c);
            }
            started = true;
            fresh = false;
            i = i + 1;
        }
    }
    assert(done + unified(input@.skip(len as int)) =~= done);
    path
}

/// `s` holds a pair of colons at position `i`.
pub open spec fn colons_at(s: Seq<char>, i: int) -> bool {
    0 <= i && i + 1 < s.len() && s[i] == ':' && s[i + 1] == ':'
}

/// `s` holds its first pair of colons at position `i`.
pub open spec fn first_colons_at(s: Seq<char>, i: int) -> bool {
    colons_at(s, i) && forall|j: int| 0 <= j < i ==> !colons_at(s, j)
}

/// `s` from behind its first pair of colons on; all of it where it has none.
pub open spec fn behind_colons(s: Seq<char>) -> Seq<char> {
    if exists|i: int| first_colons_at(s, i) {
        s.skip((choose|i: int| first_colons_at(s, i)) + 2)
    } else {
        s
    }
}

/// `path` without the marker of a type reference and the name of the type it refers to.
pub open spec fn without_typeref(path: Seq<char>) -> Seq<char> {
    if "_typeref_"@.is_prefix_of(path) {
        behind_colons(path.skip("_typeref_"@.len() as int))
    } else {
        path
    }
}

/// Returns `path` without the marker of a type reference and the name of the type it refers to.
pub fn strip_typeref_prefix(path: &str) -> (rest: &str)
    ensures
        rest@ == without_typeref(path@),
{
    if !has_prefix(path, "_typeref_") {
        return path;
    }
    let marker: usize = "_typeref_".unicode_len();
    let rest = skip_chars(path, marker);
    let chars = chars_of(rest);
    let mut i: usize = 0;
    while i < chars.len()
        invariant
            i <= chars.len(),
            chars@ == rest@,
            "_typeref_"@.is_prefix_of(path@),
            rest@ == path@.skip("_typeref_"@.len() as int),
            forall|j: int| 0 <= j < i ==> !colons_at(rest@, j),
        decreases chars.len() - i,
    {
        if chars.len() - i >= 2 && chars[i] == ':' && chars[i + 1] == ':' {
            proof {
                assert(first_colons_at(rest@, i as int));
                let k = choose|k: int| first_colons_at(rest@, k);
                assert(first_colons_at(rest@, k));
                assert(colons_at(rest@, i as int) && colons_at(rest@, k));
                assert(k == i);
            }
            return skip_chars(rest, i + 2);
        }
        assert(!colons_at(rest@, i as int));
        i = i + 1;
    }
    assert(forall|j: int| !first_colons_at(rest@, j));
    rest
}

/// `path` without a leading type name and the dot behind it.
pub open spec fn without_type(path: Seq<char>, typename: Seq<char>) -> Seq<char> {
    if path.len() > 0 && typename.is_prefix_of(path) {
        let rest = path.skip(typename.len() as int);
        if rest.len() > 0 && rest[0] == DOT {
            rest.skip(1)
        } else {
            rest
        }
    } else {
        path
    }
}

/// Returns `path` without a leading type name and the dot behind it.
pub fn trim_type_prefix<'a>(path: &'a str, typename: &str) -> (rest: &'a str)
    ensures
        rest@ == without_type(path@, typename@),
{
    if path.is_empty() || !has_prefix(path, typename) {
        return path;
    }
    let len: usize = typename.unicode_len();
    let rest = skip_chars(path, len);
    if !rest.is_empty() && rest.get_char(0) == DOT {
        skip_chars(rest, 1)
    } else {
        rest
    }
}

/// Returns the segments of `path` with a dot between neighbours.
pub fn path_key(path: &[String]) -> (key: String)
    ensures
        key@ == dot_join(texts(path@)),
{
    let mut key = String::new();
    let mut i: usize = 0;
    assert(texts(path@).take(0) =~= Seq::<Seq<char>>::empty());
    while i < path.len()
        invariant
            i <= path.len(),
            key@ == dot_join(texts(path@).take(i as int)),
        decreases path.len() - i,
    {
        proof {
            let segments = texts(path@);
            assert(segments.take(i + 1) =~= segments.take(i as int).push(segments[i as int]));
            lemma_join_push(segments.take(i as int), segments[i as int]);
        }
        if i > 0 {
            append_dot(&mut key);
        }
        key.append(path[i].as_str());
        assert(key@ =~= dot_join(texts(path@).take(i + 1)));
        i = i + 1;
    }
    assert(texts(path@).take(i as int) =~= texts(path@));
    key
}

/// `s` without the pairs of dots it begins with.
pub open spec fn without_double_dots(s: Seq<char>) -> Seq<char>
    decreases s.len(),
{
    if s.len() >= 2 && s[0] == '.' && s[1] == '.' {
        without_double_dots(s.skip(2))
    } else {
        s
    }
}

/// The segments of the parts of a field reference, each without leading pairs of dots.
pub open spec fn reference_segments(parts: Seq<Seq<char>>) -> Seq<Seq<char>>
    decreases parts.len(),
{
    if parts.len() == 0 {
        Seq::empty()
    } else {
        reference_segments(parts.drop_last()) + trimmed_segments(split(parts.last(), '/'))
    }
}

/// The segments, each without leading pairs of dots.
pub open spec fn trimmed_segments(segments: Seq<Seq<char>>) -> Seq<Seq<char>> {
    segments.map_values(|s: Seq<char>| without_double_dots(s))
}

/// The key under which the value of the referenced field is looked up.
pub open spec fn flattened(parts: Seq<Seq<char>>) -> Seq<char> {
    dot_join(nonempty(reference_segments(parts)))
}

/// Returns `s` without the pairs of dots it begins with.
fn strip_double_dots(s: &str) -> (rest: &str)
    ensures
        rest@ == without_double_dots(s@),
{
    let chars = chars_of(s);
    let mut i: usize = 0;
    assert(s@.skip(0) =~= s@);
    while chars.len() - i >= 2 && chars[i] == '.' && chars[i + 1] == '.'
        invariant
            i <= chars.len(),
            chars@ == s@,
            without_double_dots(s@) == without_double_dots(s@.skip(i as int)),
        decreases chars.len() - i,
    {
        assert(s@.skip(i as int).skip(2) =~= s@.skip(i + 2));
        i = i + 2;
    }
    skip_chars(s, i)
}

/// Adds a segment to a join of segments; an empty one adds nothing.
fn append_segment(key: &mut String, started: bool, segment: &str, Ghost(segments): Ghost<
    Seq<Seq<char>>,
>) -> (now_started: bool)
    requires
        old(key)@ == dot_join(nonempty(segments)),
        started == (nonempty(segments).len() > 0),
    ensures
        final(key)@ == dot_join(nonempty(segments.push(segment@))),
        now_started == (nonempty(segments.push(segment@)).len() > 0),
{
    proof {
        lemma_nonempty_push(segments, segment@);
        lemma_join_push(nonempty(segments), segment@);
    }
    if segment.is_empty() {
        return started;
    }
    if started {
        append_dot(key);
    }
    key.append(segment);
    assert(key@ =~= dot_join(nonempty(segments.push(segment@))));
    true
}

/// Returns the key under which the value of the referenced field is looked up.
pub fn flatten_field_ref(expr: &FieldRefExpr) -> (key: String)
    ensures
        key@ == flattened(texts(expr.path@)),
{
    let mut key = String::new();
    let mut started: bool = false;
    let mut i: usize = 0;
    let ghost parts = texts(expr.path@);
    proof {
        reveal(Seq::filter);
        assert(parts.take(0) =~= Seq::<Seq<char>>::empty());
        assert(nonempty(reference_segments(parts.take(0))) =~= Seq::<Seq<char>>::empty());
    }
    while i < expr.path.len()
        invariant
            i <= expr.path.len(),
            parts == texts(expr.path@),
            key@ == dot_join(nonempty(reference_segments(parts.take(i as int)))),
            started == (nonempty(reference_segments(parts.take(i as int))).len() > 0),
        decreases expr.path.len() - i,
    {
        let part = expr.path[i].as_str();
        let ghost base = reference_segments(parts.take(i as int));
        let chars = chars_of(part);
        let mut from: usize = 0;
        let mut j: usize = 0;
        proof {
            assert(part@.take(0) =~= Seq::<char>::empty());
            assert(part@.subrange(0, 0) =~= Seq::<char>::empty());
            assert(base + trimmed_segments(split(part@.take(0), '/').drop_last()) =~= base);
        }
        while j < chars.len()
            invariant
                from <= j <= chars.len(),
                chars@ == part@,
                split(part@.take(j as int), '/').len() >= 1,
                split(part@.take(j as int), '/').last() == part@.subrange(from as int, j as int),
                key@ == dot_join(
                    nonempty(
                        base + trimmed_segments(split(part@.take(j as int), '/').drop_last()),
                    ),
                ),
                started == (nonempty(
                    base + trimmed_segments(split(part@.take(j as int), '/').drop_last()),
                ).len() > 0),
            decreases chars.len() - j,
        {
            let ghost before = split(part@.take(j as int), '/');
            let ghost after = split(part@.take(j + 1), '/');
            assert(part@.take(j + 1).drop_last() =~= part@.take(j as int));
            if chars[j] == '/' {
                let segment = strip_double_dots(part.substring_char(from, j));
                started = append_segment(
                    &mut key,
                    started,
                    segment,
                    Ghost(base + trimmed_segments(before.drop_last())),
                );
                proof {
                    assert(after.drop_last() =~= before);
                    assert((base + trimmed_segments(before.drop_last())).push(segment@) =~= base
                        + trimmed_segments(before));
                    assert(part@.subrange(j + 1, j + 1) =~= Seq::<char>::empty());
                }
                from = j + 1;
            } else {
                proof {
                    assert(after.drop_last() =~= before.drop_last());
                    assert(part@.subrange(from as int, j as int).push(part@[j as int])
                        =~= part@.subrange(from as int, j + 1));
                }
            }
            j = j + 1;
        }
        let ghost segments = split(part@, '/');
        assert(part@.take(j as int) =~= part@);
        let segment = strip_double_dots(part.substring_char(from, j));
        started = append_segment(
            &mut key,
            started,
            segment,
            Ghost(base + trimmed_segments(segments.drop_last())),
        );
        proof {
            assert((base + trimmed_segments(segments.drop_last())).push(segment@) =~= base
                + trimmed_segments(segments));
            assert(parts.take(i + 1).drop_last() =~= parts.take(i as int));
            assert(parts.take(i + 1).last() == part@);
        }
        i = i + 1;
    }
    assert(parts.take(i as int) =~= parts);
    key
}

/// What an expression is called in an error.
pub open spec fn described(expr: ExprKind) -> Seq<char> {
    match expr {
        ExprKind::Literal(_) => "literal"@,
        ExprKind::FieldRef(field) => "field("@ + flattened(texts(field.path@)) + ")"@,
        ExprKind::Sizeof(query) => "sizeof("@ + query.typename@ + ")"@,
        ExprKind::Alignof(query) => "alignof("@ + query.typename@ + ")"@,
        _ => "expression"@,
    }
}

/// Returns what an expression is called in an error.
pub fn expr_name(expr: &ExprKind) -> (name: String)
    ensures
        name@ == described(*expr),
{
    match expr {
        ExprKind::Literal(_) => String::from_str("literal"),
        ExprKind::FieldRef(field) => {
            let key = flatten_field_ref(field);
            bracketed("field(", key.as_str())
        },
        ExprKind::Sizeof(query) => bracketed("sizeof(", query.typename.as_str()),
        ExprKind::Alignof(query) => bracketed("alignof(", query.typename.as_str()),
        _ => String::from_str("expression"),
    }
}

/// Joins an opening, a content and a closing bracket.
fn bracketed(opening: &str, content: &str) -> (text: String)
    ensures
        text@ == opening@ + content@ + ")"@,
{
    let mut text = String::from_str(opening);
    text.append(content);
    text.append(")");
    text
}

} // verus!
