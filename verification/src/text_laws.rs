//! What holds of the pieces that texts are made of.

use vstd::prelude::*;

use crate::names::{lemma_join_push, lemma_nonempty_push, lemma_split_len};
use crate::str_map::{before, diverges_below};
use crate::text::{decimal, digit, dot_join, nonempty, split};

verus! {

/// The number that a text of decimal digits stands for.
pub open spec fn reading(s: Seq<char>) -> int
    decreases s.len(),
{
    if s.len() == 0 {
        0
    } else {
        10 * reading(s.drop_last()) + (s.last() as int - '0' as int)
    }
}

/// A number written in decimal reads back as itself. It is written with digits alone, and without a
/// zero in front unless it is zero.
pub proof fn decimals_read_back(n: nat)
    ensures
        reading(decimal(n)) == n,
        decimal(n).len() > 0,
        forall|i: int| 0 <= i < decimal(n).len() ==> '0' <= #[trigger] decimal(n)[i] <= '9',
        n > 0 ==> decimal(n)[0] != '0',
    decreases n,
{
    let last = digit(n % 10);
    assert(last as int == '0' as int + n % 10);
    if n < 10 {
        assert(decimal(n).drop_last() =~= Seq::<char>::empty());
        assert(reading(decimal(n).drop_last()) == 0);
    } else {
        decimals_read_back(n / 10);
        assert(decimal(n).drop_last() =~= decimal(n / 10));
        assert forall|i: int| 0 <= i < decimal(n).len() implies '0' <= #[trigger] decimal(n)[i]
            <= '9' by {
            if i < decimal(n / 10).len() {
                assert(decimal(n)[i] == decimal(n / 10)[i]);
            }
        }
        assert(decimal(n)[0] == decimal(n / 10)[0]);
    }
}

/// The segments in order with `sep` between neighbours.
pub open spec fn join_by(segments: Seq<Seq<char>>, sep: char) -> Seq<char>
    decreases segments.len(),
{
    if segments.len() == 0 {
        Seq::empty()
    } else if segments.len() == 1 {
        segments[0]
    } else {
        join_by(segments.drop_last(), sep).push(sep) + segments.last()
    }
}

/// The segments of a text hold no separator, and joined by separators they are the text.
pub proof fn segments_join_back(s: Seq<char>, sep: char)
    ensures
        join_by(split(s, sep), sep) == s,
        split(s, sep).len() >= 1,
        forall|i: int| 0 <= i < split(s, sep).len() ==> !(#[trigger] split(s, sep)[i]).contains(sep),
    decreases s.len(),
{
    if s.len() > 0 {
        let less = s.drop_last();
        let c = s.last();
        let parts = split(less, sep);
        let now = split(s, sep);
        segments_join_back(less, sep);
        assert(less.push(c) =~= s);
        if c == sep {
            assert(now.drop_last() =~= parts);
            assert(join_by(now, sep) =~= s);
        } else {
            assert(now.drop_last() =~= parts.drop_last());
            assert(now.last() == parts.last().push(c));
            assert forall|i: int| 0 <= i < now.len() implies !(#[trigger] now[i]).contains(sep) by {
                if i < parts.len() - 1 {
                    assert(now[i] == parts[i]);
                } else {
                    let tail = parts.last();
                    assert(!parts[parts.len() - 1].contains(sep));
                    if tail.push(c).contains(sep) {
                        let k = tail.push(c).index_of(sep);
                        if k < tail.len() {
                            assert(tail[k] == sep);
                            assert(tail.contains(sep));
                        }
                    }
                }
            }
            assert(join_by(now, sep) =~= s);
        }
    } else {
        assert(join_by(split(s, sep), sep) =~= s);
    }
}

/// Splitting at a separator parts the text in two, and the parts are split on their own.
pub proof fn splitting_parts_at_separators(a: Seq<char>, b: Seq<char>, sep: char)
    ensures
        split(a.push(sep) + b, sep) == split(a, sep) + split(b, sep),
    decreases b.len(),
{
    if b.len() == 0 {
        assert(a.push(sep) + b =~= a.push(sep));
        assert(a.push(sep).drop_last() =~= a);
        assert(split(a.push(sep) + b, sep) =~= split(a, sep) + split(b, sep));
    } else {
        let less = b.drop_last();
        splitting_parts_at_separators(a, less, sep);
        lemma_split_len(less, sep);
        assert((a.push(sep) + b).drop_last() =~= a.push(sep) + less);
        assert(split(a.push(sep) + b, sep) =~= split(a, sep) + split(b, sep));
    }
}

/// Joining segments with dots: nothing for none, a single segment for itself, and a dot where two
/// runs of segments meet.
pub proof fn joins_put_dots_between(a: Seq<Seq<char>>, b: Seq<Seq<char>>, s: Seq<char>)
    ensures
        dot_join(Seq::empty()) == Seq::<char>::empty(),
        dot_join(seq![s]) == s,
        a.len() > 0 && b.len() > 0 ==> dot_join(a + b) == dot_join(a).push('.') + dot_join(b),
    decreases b.len(),
{
    if a.len() > 0 && b.len() > 0 {
        let less = b.drop_last();
        assert(a + b =~= (a + less).push(b.last()));
        assert(less.push(b.last()) =~= b);
        lemma_join_push(a + less, b.last());
        lemma_join_push(less, b.last());
        if less.len() > 0 {
            joins_put_dots_between(a, less, s);
        } else {
            assert(a + less =~= a);
        }
        assert(dot_join(a + b) =~= dot_join(a).push('.') + dot_join(b));
    }
}

/// Leaving out empty segments: run by run, and each segment for itself.
pub proof fn empty_segments_are_left_out(a: Seq<Seq<char>>, b: Seq<Seq<char>>, s: Seq<char>)
    ensures
        nonempty(a + b) == nonempty(a) + nonempty(b),
        s.len() > 0 ==> nonempty(seq![s]) == seq![s],
        s.len() == 0 ==> nonempty(seq![s]) == Seq::<Seq<char>>::empty(),
    decreases b.len(),
{
    reveal(Seq::filter);
    assert(Seq::<Seq<char>>::empty().push(s) =~= seq![s]);
    lemma_nonempty_push(Seq::empty(), s);
    assert(nonempty(Seq::empty()) =~= Seq::<Seq<char>>::empty());
    if b.len() == 0 {
        assert(a + b =~= a);
        assert(b =~= Seq::empty());
        assert(nonempty(a) + nonempty(b) =~= nonempty(a));
    } else {
        let less = b.drop_last();
        empty_segments_are_left_out(a, less, s);
        assert(a + b =~= (a + less).push(b.last()));
        assert(less.push(b.last()) =~= b);
        lemma_nonempty_push(a + less, b.last());
        lemma_nonempty_push(less, b.last());
        assert(nonempty(a + b) =~= nonempty(a) + nonempty(b));
    }
}

/// A text stands before every longer one that begins with it, and of two texts that part at a
/// character the one with the smaller character stands before the other.
pub proof fn texts_are_ordered_as_in_a_dictionary(
    stem: Seq<char>,
    c: char,
    d: char,
    x: Seq<char>,
    y: Seq<char>,
)
    ensures
        before(stem, stem.push(c) + x),
        c < d ==> before(stem.push(c) + x, stem.push(d) + y),
{
    let k = stem.len() as int;
    let a = stem.push(c) + x;
    let b = stem.push(d) + y;
    assert(diverges_below(stem, a, k));
    if c < d {
        assert(diverges_below(a, b, k));
    }
}

} // verus!
