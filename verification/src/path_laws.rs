//! What holds of names and paths in their normal forms.

use vstd::prelude::*;

use crate::model::element_path;
use crate::names::{
    canonical, colons_at, first_colons_at, flattened, lemma_dotted_push, lemma_join_push,
    lemma_no_segments, lemma_nonempty_push, normalized, reference_segments, trimmed_segments,
    unified, without_current, without_double_dots, without_parents, without_type, without_typeref,
};
use crate::text::{decimal, digit, dot_join, dotted, nonempty, split, DOT};
use crate::text_laws::{
    empty_segments_are_left_out, joins_put_dots_between, splitting_parts_at_separators,
};

verus! {

/// Every segment of `s` holds a character: no dot stands at an end or beside another.
pub open spec fn tidy(s: Seq<char>) -> bool {
    &&& s.len() > 0 ==> s[0] != '.' && s.last() != '.'
    &&& forall|i: int| 0 <= i < s.len() - 1 ==> !(#[trigger] s[i] == '.' && s[i + 1] == '.')
}

/// `s` holds no slash and no bracket.
pub open spec fn unbracketed(s: Seq<char>) -> bool {
    forall|i: int|
        0 <= i < s.len() ==> (#[trigger] s[i]) != '/' && s[i] != '[' && s[i] != ']'
}

/// `s` holds no pair of colons.
pub open spec fn uncoloned(s: Seq<char>) -> bool {
    forall|i: int| !colons_at(s, i)
}

/// The full name of a parameter has a full name of its own: itself.
pub proof fn canonical_names_are_kept(owner: Seq<char>, path: Seq<char>)
    ensures
        canonical(owner, canonical(owner, path)) == canonical(owner, path),
{
    let name = canonical(owner, path);
    if name == owner.push(DOT) + path {
        assert(name.take((owner.len() + 1) as int) =~= owner.push(DOT));
    }
}

/// The full name of a parameter is its owner, or begins with its owner and a dot.
pub proof fn canonical_names_begin_with_their_owner(owner: Seq<char>, path: Seq<char>)
    ensures
        canonical(owner, path) == owner || owner.push('.').is_prefix_of(canonical(owner, path)),
{
    let name = canonical(owner, path);
    if name == owner.push('.') + path {
        assert(name.take((owner.len() + 1) as int) =~= owner.push('.'));
    }
}

proof fn lemma_unified_unbracketed(s: Seq<char>)
    ensures
        unbracketed(unified(s)),
    decreases s.len(),
{
    if s.len() > 0 {
        lemma_unified_unbracketed(s.skip(1));
        if s.len() >= 2 {
            lemma_unified_unbracketed(s.skip(2));
        }
    }
}

proof fn lemma_unified_keeps(s: Seq<char>)
    requires
        unbracketed(s),
        uncoloned(s),
    ensures
        unified(s) == s,
    decreases s.len(),
{
    if s.len() > 0 {
        let rest = s.skip(1);
        assert forall|i: int| !colons_at(rest, i) by {
            if colons_at(rest, i) {
                assert(colons_at(s, i + 1));
            }
        }
        lemma_unified_keeps(rest);
        assert(!colons_at(s, 0));
        assert(seq![s[0]] + rest =~= s);
    } else {
        assert(unified(s) =~= s);
    }
}

proof fn lemma_dotted_tidy(s: Seq<char>)
    requires
        unbracketed(s),
    ensures
        tidy(dotted(s)),
        unbracketed(dotted(s)),
        nonempty(split(s, DOT)).len() > 0 <==> dotted(s).len() > 0,
    decreases s.len(),
{
    if s.len() == 0 {
        assert(s =~= Seq::empty());
        lemma_no_segments();
    } else {
        let less = s.drop_last();
        lemma_dotted_tidy(less);
        lemma_dotted_push(less, s.last());
        assert(less.push(s.last()) =~= s);
    }
}

proof fn lemma_dotted_keeps(s: Seq<char>)
    requires
        s.len() > 0 ==> s[0] != DOT,
        forall|i: int| 0 <= i < s.len() - 1 ==> !(#[trigger] s[i] == DOT && s[i + 1] == DOT),
    ensures
        dotted(s) == (if s.len() > 0 && s.last() == DOT {
            s.drop_last()
        } else {
            s
        }),
        nonempty(split(s, DOT)).len() > 0 <==> s.len() > 0,
        split(s, DOT).last().len() == 0 <==> s.len() == 0 || s.last() == DOT,
    decreases s.len(),
{
    if s.len() == 0 {
        assert(s =~= Seq::empty());
        lemma_no_segments();
    } else {
        let less = s.drop_last();
        assert forall|i: int| 0 <= i < less.len() - 1 implies !(#[trigger] less[i] == DOT && less[i
            + 1] == DOT) by {
            assert(s[i] == less[i]);
        }
        lemma_dotted_keeps(less);
        lemma_dotted_push(less, s.last());
        assert(less.push(s.last()) =~= s);
        if less.len() > 0 && less.last() == DOT {
            assert(s[less.len() - 1] == DOT);
            assert(less.drop_last().push(DOT) =~= less);
        }
    }
}

/// A normalized path has no empty segments, and neither slashes nor brackets.
pub proof fn normalized_paths_are_tidy(s: Seq<char>)
    ensures
        tidy(normalized(s)),
        unbracketed(normalized(s)),
{
    let body = without_current(without_parents(s));
    lemma_unified_unbracketed(body);
    lemma_dotted_tidy(unified(body));
}

/// Normalizing keeps a path that is in normal form.
pub proof fn tidy_paths_are_kept(s: Seq<char>)
    requires
        tidy(s),
        unbracketed(s),
        uncoloned(s),
    ensures
        normalized(s) == s,
{
    assert(without_current(without_parents(s)) == s);
    lemma_unified_keeps(s);
    lemma_dotted_keeps(s);
}

/// Normalizing twice is normalizing once, unless taking a bracket out has left a pair of colons.
pub proof fn normalizing_is_idempotent(s: Seq<char>)
    requires
        uncoloned(normalized(s)),
    ensures
        normalized(normalized(s)) == normalized(s),
{
    normalized_paths_are_tidy(s);
    tidy_paths_are_kept(normalized(s));
}

/// Two paths with a dot between them; an empty one adds nothing.
pub open spec fn joined(a: Seq<char>, b: Seq<char>) -> Seq<char> {
    if a.len() == 0 {
        b
    } else if b.len() == 0 {
        a
    } else {
        a.push('.') + b
    }
}

proof fn lemma_unified_slash(a: Seq<char>, b: Seq<char>)
    ensures
        unified(a.push('/') + b) == unified(a).push(DOT) + unified(b),
    decreases a.len(),
{
    let s = a.push('/') + b;
    if a.len() == 0 {
        assert(s.skip(1) =~= b);
        assert(seq![DOT] + unified(b) =~= unified(a).push(DOT) + unified(b));
    } else {
        assert(s[0] == a[0]);
        assert(s.skip(1) =~= a.skip(1).push('/') + b);
        lemma_unified_slash(a.skip(1), b);
        if a.len() >= 2 {
            assert(s[1] == a[1]);
            assert(s.skip(2) =~= a.skip(2).push('/') + b);
            lemma_unified_slash(a.skip(2), b);
        } else {
            assert(s[1] == '/');
        }
        assert(unified(s) =~= unified(a).push(DOT) + unified(b));
    }
}

proof fn lemma_dotted_started(s: Seq<char>)
    ensures
        nonempty(split(s, DOT)).len() > 0 <==> dotted(s).len() > 0,
        split(s, DOT).last().len() > 0 ==> dotted(s).len() > 0,
    decreases s.len(),
{
    if s.len() == 0 {
        assert(s =~= Seq::empty());
        lemma_no_segments();
    } else {
        let less = s.drop_last();
        lemma_dotted_started(less);
        lemma_dotted_push(less, s.last());
        assert(less.push(s.last()) =~= s);
    }
}

proof fn lemma_dotted_dot(a: Seq<char>, b: Seq<char>)
    ensures
        dotted(a.push(DOT) + b) == joined(dotted(a), dotted(b)),
        split(a.push(DOT) + b, DOT).last().len() == 0 <==> split(b, DOT).last().len() == 0,
    decreases b.len(),
{
    if b.len() == 0 {
        assert(b =~= Seq::empty());
        lemma_no_segments();
        assert(a.push(DOT) + b =~= a.push(DOT));
        lemma_dotted_push(a, DOT);
        assert(joined(dotted(a), dotted(b)) =~= dotted(a));
    } else {
        let less = b.drop_last();
        let c = b.last();
        let s = a.push(DOT) + less;
        lemma_dotted_dot(a, less);
        assert(less.push(c) =~= b);
        assert(s.push(c) =~= a.push(DOT) + b);
        lemma_dotted_push(less, c);
        lemma_dotted_push(s, c);
        lemma_dotted_started(less);
        lemma_dotted_started(s);
        assert(dotted(s.push(c)) =~= joined(dotted(a), dotted(less.push(c))));
    }
}

proof fn lemma_steps_are_dots(s: Seq<char>)
    ensures
        dotted(unified(without_parents(s))) == dotted(unified(s)),
        dotted(unified(without_current(s))) == dotted(unified(s)),
    decreases s.len(),
{
    if s.len() >= 3 && s[0] == '.' && s[1] == '.' && s[2] == '/' {
        let rest = s.skip(3);
        lemma_steps_are_dots(rest);
        let up = seq!['.', '.'];
        assert(s =~= up.push('/') + rest);
        lemma_unified_slash(up, rest);
        lemma_dots_unify(up);
        lemma_dotted_dot(unified(up), unified(rest));
        lemma_dots_vanish(up);
    }
    if s.len() >= 2 && s[0] == '.' && s[1] == '/' {
        let rest = s.skip(2);
        let here = seq!['.'];
        assert(s =~= here.push('/') + rest);
        lemma_unified_slash(here, rest);
        lemma_dots_unify(here);
        lemma_dotted_dot(unified(here), unified(rest));
        lemma_dots_vanish(here);
    }
}

proof fn lemma_dots_unify(s: Seq<char>)
    requires
        forall|i: int| 0 <= i < s.len() ==> s[i] == DOT,
    ensures
        unified(s) == s,
{
    assert(unbracketed(s));
    lemma_unified_keeps(s);
}

proof fn lemma_dots_vanish(s: Seq<char>)
    requires
        forall|i: int| 0 <= i < s.len() ==> s[i] == DOT,
    ensures
        dotted(s).len() == 0,
    decreases s.len(),
{
    if s.len() == 0 {
        lemma_dotted_keeps(s);
    } else {
        lemma_dots_vanish(s.drop_last());
        lemma_dotted_push(s.drop_last(), DOT);
        assert(s.drop_last().push(DOT) =~= s);
    }
}

/// Normalizing distributes over a slash: the parts can be normalized on their own.
pub proof fn normalizing_distributes_over_slashes(a: Seq<char>, b: Seq<char>)
    ensures
        normalized(a.push('/') + b) == joined(normalized(a), normalized(b)),
{
    let s = a.push('/') + b;
    lemma_normalized_plainly(s);
    lemma_normalized_plainly(a);
    lemma_normalized_plainly(b);
    lemma_unified_slash(a, b);
    lemma_dotted_dot(unified(a), unified(b));
}

proof fn lemma_normalized_plainly(s: Seq<char>)
    ensures
        normalized(s) == dotted(unified(s)),
{
    lemma_steps_are_dots(s);
    lemma_steps_are_dots(without_parents(s));
}

/// Different numbers are written differently.
pub proof fn decimals_differ(a: nat, b: nat)
    requires
        decimal(a) == decimal(b),
    ensures
        a == b,
    decreases a,
{
    assert(decimal(a).last() == digit(a % 10));
    assert(decimal(b).last() == digit(b % 10));
    assert(a % 10 == b % 10);
    lemma_decimal_len(a / 10);
    lemma_decimal_len(b / 10);
    if a >= 10 && b >= 10 {
        assert(decimal(a).drop_last() =~= decimal(a / 10));
        assert(decimal(b).drop_last() =~= decimal(b / 10));
        decimals_differ(a / 10, b / 10);
    }
}

proof fn lemma_decimal_len(n: nat)
    ensures
        decimal(n).len() > 0,
{
}

/// Different elements of an array have different keys.
pub proof fn elements_have_keys_of_their_own(path: Seq<Seq<char>>, i: usize, j: usize)
    requires
        dot_join(element_path(path, i)) == dot_join(element_path(path, j)),
    ensures
        i == j,
{
    lemma_join_push(path, decimal(i as nat));
    lemma_join_push(path, decimal(j as nat));
    let stem = dot_join(path).push(DOT);
    if path.len() > 0 {
        assert((stem + decimal(i as nat)).skip(stem.len() as int) =~= decimal(i as nat));
        assert((stem + decimal(j as nat)).skip(stem.len() as int) =~= decimal(j as nat));
    }
    decimals_differ(i as nat, j as nat);
}

/// The full name of a parameter ends with the path, if there is one, and holds nothing but the owner,
/// a dot and the path: the path alone where that begins with the owner and a dot or is the owner.
pub proof fn canonical_names_end_with_the_path(owner: Seq<char>, path: Seq<char>)
    ensures
        path.len() == 0 ==> canonical(owner, path) == owner,
        path == owner || owner.push('.').is_prefix_of(path) ==> canonical(owner, path) == path,
        path.len() > 0 && path != owner && !owner.push('.').is_prefix_of(path) ==> canonical(
            owner,
            path,
        ) == joined_strictly(owner, path),
{
}

/// Two texts with a dot between them.
pub open spec fn joined_strictly(a: Seq<char>, b: Seq<char>) -> Seq<char> {
    a.push('.') + b
}

/// A pair of colons does not stand astride the border between `a` and `b`.
pub open spec fn parts_cleanly(a: Seq<char>, b: Seq<char>) -> bool {
    !(a.len() > 0 && b.len() > 0 && a.last() == ':' && b[0] == ':')
}

proof fn lemma_unified_parts(a: Seq<char>, b: Seq<char>)
    requires
        parts_cleanly(a, b),
    ensures
        unified(a + b) == unified(a) + unified(b),
    decreases a.len(),
{
    let s = a + b;
    if a.len() == 0 {
        assert(s =~= b);
        assert(unified(a) + unified(b) =~= unified(b));
    } else {
        assert(s[0] == a[0]);
        assert(s.skip(1) =~= a.skip(1) + b);
        lemma_unified_parts(a.skip(1), b);
        if a.len() >= 2 {
            assert(s[1] == a[1]);
            assert(s.skip(2) =~= a.skip(2) + b);
            lemma_unified_parts(a.skip(2), b);
        } else if b.len() > 0 {
            assert(s[1] == b[0]);
        }
        assert(unified(s) =~= unified(a) + unified(b));
    }
}

/// Normalizing treats every separator alike: where a dot, a slash, an opening bracket or a pair of
/// colons parts a path in two, the parts can be normalized on their own.
pub proof fn normalizing_distributes_over_separators(a: Seq<char>, b: Seq<char>, sep: char)
    requires
        sep == '.' || sep == '/' || sep == '[',
    ensures
        normalized(a.push(sep) + b) == joined(normalized(a), normalized(b)),
        !(a.len() > 0 && a.last() == ':') ==> normalized(a.push(':').push(':') + b) == joined(
            normalized(a),
            normalized(b),
        ),
{
    lemma_normalized_plainly(a);
    lemma_normalized_plainly(b);
    lemma_normalized_plainly(a.push(sep) + b);
    let tail = seq![sep] + b;
    assert(a.push(sep) + b =~= a + tail);
    assert(tail.skip(1) =~= b);
    lemma_unified_parts(a, tail);
    assert(unified(a) + (seq![DOT] + unified(b)) =~= unified(a).push(DOT) + unified(b));
    lemma_dotted_dot(unified(a), unified(b));
    if !(a.len() > 0 && a.last() == ':') {
        let s = a.push(':').push(':') + b;
        let rest = seq![':', ':'] + b;
        lemma_normalized_plainly(s);
        assert(s =~= a + rest);
        assert(rest.skip(2) =~= b);
        lemma_unified_parts(a, rest);
        assert(unified(rest) == seq![DOT] + unified(b));
    }
}

/// Closing brackets count for nothing, unless one keeps two colons apart.
pub proof fn closing_brackets_are_dropped(a: Seq<char>, b: Seq<char>)
    requires
        parts_cleanly(a, b),
    ensures
        normalized(a.push(']') + b) == normalized(a + b),
{
    lemma_normalized_plainly(a + b);
    lemma_normalized_plainly(a.push(']') + b);
    let tail = seq![']'] + b;
    assert(a.push(']') + b =~= a + tail);
    assert(tail.skip(1) =~= b);
    lemma_unified_parts(a, tail);
    lemma_unified_parts(a, b);
}

/// A path through a type reference goes on behind the name of the type and its colons. Without colons
/// there is nothing but the name, and a path without the marker is kept.
pub proof fn typeref_markers_are_taken_off(name: Seq<char>, path: Seq<char>)
    ensures
        uncoloned(name.push(':')) ==> without_typeref(
            "_typeref_"@ + name.push(':').push(':') + path,
        ) == path,
        uncoloned(name) ==> without_typeref("_typeref_"@ + name) == name,
        !"_typeref_"@.is_prefix_of(path) ==> without_typeref(path) == path,
{
    let marker = "_typeref_"@;
    let n = marker.len() as int;
    if uncoloned(name.push(':')) {
        let rest = name.push(':').push(':') + path;
        let s = marker + name.push(':').push(':') + path;
        assert(s.take(n) =~= marker);
        assert(s.skip(n) =~= rest);
        let i = name.len() as int;
        assert forall|j: int| 0 <= j < i implies !colons_at(rest, j) by {
            assert(!colons_at(name.push(':'), j));
        }
        assert(first_colons_at(rest, i));
        let k = choose|k: int| first_colons_at(rest, k);
        assert(first_colons_at(rest, k));
        assert(colons_at(rest, i) && colons_at(rest, k));
        assert(k == i);
        assert(rest.skip(i + 2) =~= path);
    }
    if uncoloned(name) {
        let s = marker + name;
        assert(s.take(n) =~= marker);
        assert(s.skip(n) =~= name);
        assert(forall|i: int| !first_colons_at(name, i));
    }
}

/// A type name in front of a path is taken off, with a dot behind it if there is one. A path without
/// it is kept.
pub proof fn type_names_are_taken_off(typename: Seq<char>, path: Seq<char>)
    ensures
        without_type(typename.push('.') + path, typename) == path,
        !(path.len() > 0 && path[0] == '.') ==> without_type(typename + path, typename) == path,
        !typename.is_prefix_of(path) ==> without_type(path, typename) == path,
{
    let n = typename.len() as int;
    let dotted_path = typename.push('.') + path;
    assert(dotted_path.take(n) =~= typename);
    assert(dotted_path.skip(n) =~= seq!['.'] + path);
    assert((seq!['.'] + path).skip(1) =~= path);
    assert((typename + path).take(n) =~= typename);
    assert((typename + path).skip(n) =~= path);
    if typename + path =~= Seq::<char>::empty() {
        assert(path =~= Seq::<char>::empty());
    }
}

proof fn lemma_reference_parts(p: Seq<Seq<char>>, q: Seq<Seq<char>>)
    ensures
        reference_segments(p + q) == reference_segments(p) + reference_segments(q),
    decreases q.len(),
{
    if q.len() == 0 {
        assert(p + q =~= p);
        assert(reference_segments(p) + reference_segments(q) =~= reference_segments(p));
    } else {
        lemma_reference_parts(p, q.drop_last());
        assert((p + q).drop_last() =~= p + q.drop_last());
        assert(reference_segments(p + q) =~= reference_segments(p) + reference_segments(q));
    }
}

proof fn lemma_all_nonempty(segments: Seq<Seq<char>>)
    ensures
        nonempty(segments).len() > 0 ==> dot_join(nonempty(segments)).len() > 0,
    decreases segments.len(),
{
    reveal(Seq::filter);
    if segments.len() > 0 {
        let less = segments.drop_last();
        lemma_all_nonempty(less);
        assert(less.push(segments.last()) =~= segments);
        lemma_nonempty_push(less, segments.last());
        lemma_join_push(nonempty(less), segments.last());
    }
}

/// The join of two runs of segments without empty ones.
proof fn lemma_nonempty_joined(a: Seq<Seq<char>>, b: Seq<Seq<char>>)
    ensures
        dot_join(nonempty(a + b)) == joined(dot_join(nonempty(a)), dot_join(nonempty(b))),
{
    empty_segments_are_left_out(a, b, Seq::empty());
    joins_put_dots_between(nonempty(a), nonempty(b), Seq::empty());
    lemma_all_nonempty(a);
    lemma_all_nonempty(b);
    if nonempty(a).len() == 0 {
        assert(nonempty(a) + nonempty(b) =~= nonempty(b));
        assert(dot_join(nonempty(a)) =~= Seq::<char>::empty());
    } else if nonempty(b).len() == 0 {
        assert(nonempty(a) + nonempty(b) =~= nonempty(a));
        assert(dot_join(nonempty(b)) =~= Seq::<char>::empty());
    }
}

/// The key of a field reference is made of the keys of its parts, and a part with a slash of those
/// on both sides of it. A part without slashes is its own key once leading pairs of dots are off.
pub proof fn reference_keys_are_made_of_parts(
    p: Seq<Seq<char>>,
    q: Seq<Seq<char>>,
    a: Seq<char>,
    b: Seq<char>,
)
    ensures
        flattened(Seq::empty()) == Seq::<char>::empty(),
        flattened(p + q) == joined(flattened(p), flattened(q)),
        flattened(seq![a.push('/') + b]) == joined(flattened(seq![a]), flattened(seq![b])),
        !a.contains('/') ==> flattened(seq![seq!['.', '.'] + a]) == flattened(seq![a]),
        !a.contains('/') && !(a.len() >= 2 && a[0] == '.' && a[1] == '.') ==> flattened(seq![a])
            == a,
{
    reveal(Seq::filter);
    assert(nonempty(reference_segments(Seq::empty())) =~= Seq::<Seq<char>>::empty());
    lemma_reference_parts(p, q);
    lemma_nonempty_joined(reference_segments(p), reference_segments(q));
    let whole = a.push('/') + b;
    lemma_single_part(whole);
    lemma_single_part(a);
    lemma_single_part(b);
    splitting_parts_at_separators(a, b, '/');
    assert(trimmed_segments(split(a, '/') + split(b, '/')) =~= trimmed_segments(split(a, '/'))
        + trimmed_segments(split(b, '/')));
    lemma_nonempty_joined(trimmed_segments(split(a, '/')), trimmed_segments(split(b, '/')));
    if !a.contains('/') {
        let more = seq!['.', '.'] + a;
        assert(!more.contains('/')) by {
            if more.contains('/') {
                let i = more.index_of('/');
                if i >= 2 {
                    assert(a[i - 2] == '/');
                }
            }
        }
        lemma_unsplit(a, '/');
        lemma_unsplit(more, '/');
        lemma_single_part(more);
        assert(more.skip(2) =~= a);
        assert(trimmed_segments(seq![a]) =~= seq![without_double_dots(a)]);
        assert(trimmed_segments(seq![more]) =~= seq![without_double_dots(more)]);
        empty_segments_are_left_out(Seq::empty(), Seq::empty(), without_double_dots(a));
        joins_put_dots_between(Seq::empty(), Seq::empty(), without_double_dots(a));
        if a.len() == 0 {
            assert(a =~= Seq::<char>::empty());
        }
    }
}

proof fn lemma_single_part(s: Seq<char>)
    ensures
        reference_segments(seq![s]) == trimmed_segments(split(s, '/')),
{
    assert(seq![s].drop_last() =~= Seq::<Seq<char>>::empty());
    assert(reference_segments(seq![s].drop_last()) =~= Seq::<Seq<char>>::empty());
    assert(reference_segments(seq![s]) =~= trimmed_segments(split(s, '/')));
}

proof fn lemma_unsplit(s: Seq<char>, sep: char)
    requires
        !s.contains(sep),
    ensures
        split(s, sep) == seq![s],
    decreases s.len(),
{
    if s.len() == 0 {
        assert(s =~= Seq::<char>::empty());
    } else {
        let less = s.drop_last();
        assert(!less.contains(sep)) by {
            if less.contains(sep) {
                assert(s[less.index_of(sep)] == sep);
            }
        }
        lemma_unsplit(less, sep);
        assert(s[s.len() - 1] == s.last());
        assert(less.push(s.last()) =~= s);
        assert(split(s, sep) =~= seq![s]);
    }
}

} // verus!
