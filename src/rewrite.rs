//! Literal rewriting of text: each pattern replaced by its replacement, the longest
//! pattern first.

use vstd::prelude::*;

verus! {

/// `text` with every occurrence of `pat` replaced by `rep`, scanning from the left
/// and without overlap; an empty pattern changes nothing.
pub open spec fn replace_all(text: Seq<char>, pat: Seq<char>, rep: Seq<char>) -> Seq<char>
    decreases text.len(),
{
    if pat.len() == 0 || text.len() < pat.len() {
        text
    } else if text.subrange(0, pat.len() as int) == pat {
        rep + replace_all(text.skip(pat.len() as int), pat, rep)
    } else {
        seq![text[0]] + replace_all(text.skip(1), pat, rep)
    }
}

/// The characters of a text, in a vector.
fn chars_of(s: &str) -> (r: Vec<char>)
    ensures
        r@ == s@,
{
    let mut out: Vec<char> = Vec::new();
    for c in it: s.chars()
        invariant
            out@ == it.seq().take(it.index() as int),
    {
        out.push(c);
    }
    out
}

/// Whether `pat` occurs in `text` at position `i`.
fn occurs_at(text: &Vec<char>, pat: &Vec<char>, i: usize) -> (r: bool)
    requires
        i + pat@.len() <= text@.len(),
    ensures
        r == (text@.subrange(i as int, i + pat@.len()) == pat@),
{
    let n = text.len();
    let mut j: usize = 0;
    while j < pat.len()
        invariant
            n == text@.len(),
            j <= pat@.len(),
            i + pat@.len() <= text@.len(),
            forall|k: int| 0 <= k < j ==> text@[i + k] == pat@[k],
        decreases pat.len() - j,
    {
        if text[i + j] != pat[j] {
            assert(text@.subrange(i as int, i + pat@.len())[j as int] != pat@[j as int]);
            return false;
        }
        j = j + 1;
    }
    assert(text@.subrange(i as int, i + pat@.len()) =~= pat@);
    true
}

/// The unfolding of `replace_all` at a position of the text.
proof fn lemma_replace_step(text: Seq<char>, pat: Seq<char>, rep: Seq<char>, i: int)
    requires
        pat.len() > 0,
        0 <= i,
        i + pat.len() <= text.len(),
    ensures
        text.subrange(i, i + pat.len()) == pat ==> replace_all(text.skip(i), pat, rep) == rep
            + replace_all(text.skip(i + pat.len()), pat, rep),
        text.subrange(i, i + pat.len()) != pat ==> replace_all(text.skip(i), pat, rep) == seq![
            text[i],
        ] + replace_all(text.skip(i + 1), pat, rep),
{
    let rest = text.skip(i);
    assert(rest.subrange(0, pat.len() as int) =~= text.subrange(i, i + pat.len()));
    assert(rest.skip(pat.len() as int) =~= text.skip(i + pat.len()));
    assert(rest.skip(1) =~= text.skip(i + 1));
}

/// `text` with every occurrence of `pat` replaced by `rep` (see `replace_all`).
pub fn replace_text(text: &String, pat: &String, rep: &String) -> (r: String)
    ensures
        r@ == replace_all(text@, pat@, rep@),
{
    let chars = chars_of(text.as_str());
    let p = chars_of(pat.as_str());
    let n = chars.len();
    let m = p.len();
    if m == 0 {
        return text.clone();
    }
    let mut out = String::new();
    let mut start: usize = 0;
    let mut i: usize = 0;
    assert(text@.skip(0) =~= text@);
    assert(out@ + text@.subrange(0, 0) =~= Seq::<char>::empty());
    while m <= n - i
        invariant
            chars@ == text@,
            p@ == pat@,
            n == chars@.len(),
            m == p@.len(),
            m > 0,
            start <= i <= n,
            out@ + text@.subrange(start as int, i as int) + replace_all(text@.skip(i as int), pat@, rep@)
                == replace_all(text@, pat@, rep@),
        decreases n - i,
    {
        proof {
            lemma_replace_step(text@, pat@, rep@, i as int);
        }
        if occurs_at(&chars, &p, i) {
            let piece = text.as_str().substring_char(start, i);
            let ghost before = out@;
            let ghost old_start = start;
            let ghost old_i = i;
            out.append(piece);
            out.append(rep.as_str());
            assert(out@ == before + text@.subrange(old_start as int, old_i as int) + rep@);
            i = i + m;
            start = i;
            assert(text@.subrange(start as int, i as int) =~= Seq::<char>::empty());
            assert(out@ + text@.subrange(start as int, i as int) + replace_all(text@.skip(i as int), pat@, rep@)
                =~= before + text@.subrange(old_start as int, old_i as int) + (rep@ + replace_all(text@.skip(i as int), pat@, rep@)));
        } else {
            let ghost old_i = i;
            i = i + 1;
            assert(text@.subrange(start as int, i as int) =~= text@.subrange(start as int, old_i as int).push(text@[old_i as int]));
            assert(out@ + text@.subrange(start as int, i as int) + replace_all(text@.skip(i as int), pat@, rep@)
                =~= out@ + text@.subrange(start as int, old_i as int) + (seq![text@[old_i as int]] + replace_all(text@.skip(i as int), pat@, rep@)));
        }
    }
    assert(replace_all(text@.skip(i as int), pat@, rep@) == text@.skip(i as int));
    let rest = text.as_str().substring_char(start, n);
    out.append(rest);
    assert(text@.subrange(start as int, i as int) + text@.skip(i as int) =~= text@.subrange(start as int, n as int));
    out
}

/// The pairs of text as characters.
pub open spec fn pairs_view(pairs: Seq<(String, String)>) -> Seq<(Seq<char>, Seq<char>)> {
    pairs.map_values(|p: (String, String)| (p.0@, p.1@))
}

/// The index of the first pair whose pattern is longest.
pub open spec fn longest_index(pairs: Seq<(Seq<char>, Seq<char>)>) -> int
    decreases pairs.len(),
{
    if pairs.len() <= 1 {
        0
    } else {
        let j = longest_index(pairs.drop_last());
        if pairs.last().0.len() > pairs[j].0.len() {
            pairs.len() - 1
        } else {
            j
        }
    }
}

/// The order in which the rewrite applies the pairs: longest pattern first, and
/// pairs whose patterns are equally long in the order they were given.
pub open spec fn rewrite_order(pairs: Seq<(Seq<char>, Seq<char>)>) -> Seq<(Seq<char>, Seq<char>)>
    decreases pairs.len(),
    via lemma_rewrite_order_decreases
{
    if pairs.len() == 0 {
        Seq::empty()
    } else {
        let j = longest_index(pairs);
        seq![pairs[j]] + rewrite_order(pairs.remove(j))
    }
}

/// The text after each pair, in turn, replaced its pattern.
pub open spec fn apply_in_order(text: Seq<char>, order: Seq<(Seq<char>, Seq<char>)>) -> Seq<char>
    decreases order.len(),
{
    if order.len() == 0 {
        text
    } else {
        apply_in_order(replace_all(text, order[0].0, order[0].1), order.skip(1))
    }
}

/// The text rewritten by the pairs, longest pattern first.
pub open spec fn rewritten(text: Seq<char>, pairs: Seq<(Seq<char>, Seq<char>)>) -> Seq<char> {
    apply_in_order(text, rewrite_order(pairs))
}

/// A pattern occurs inside another and is shorter than it.
pub open spec fn is_proper_infix(inner: Seq<char>, outer: Seq<char>) -> bool {
    &&& inner.len() < outer.len()
    &&& exists|i: int| 0 <= i && i + inner.len() <= outer.len() && #[trigger] outer.subrange(
        i,
        i + inner.len(),
    ) == inner
}

#[via_fn]
proof fn lemma_rewrite_order_decreases(pairs: Seq<(Seq<char>, Seq<char>)>) {
    if pairs.len() > 0 {
        lemma_longest_index(pairs);
    }
}

proof fn lemma_longest_index(pairs: Seq<(Seq<char>, Seq<char>)>)
    requires
        pairs.len() > 0,
    ensures
        0 <= longest_index(pairs) < pairs.len(),
        forall|i: int|
            0 <= i < pairs.len() ==> #[trigger] pairs[i].0.len() <= pairs[longest_index(
                pairs,
            )].0.len(),
    decreases pairs.len(),
{
    if pairs.len() > 1 {
        let front = pairs.drop_last();
        lemma_longest_index(front);
        let j = longest_index(front);
        assert(pairs[j] == front[j]);
        assert forall|i: int| 0 <= i < pairs.len() implies #[trigger] pairs[i].0.len()
            <= pairs[longest_index(pairs)].0.len() by {
            if i < pairs.len() - 1 {
                assert(pairs[i] == front[i]);
            }
        }
    }
}

/// The rewrite order holds the given pairs, with patterns from longest to shortest.
pub(crate) proof fn lemma_rewrite_order_sorted(pairs: Seq<(Seq<char>, Seq<char>)>)
    ensures
        rewrite_order(pairs).len() == pairs.len(),
        forall|a: int|
            0 <= a < pairs.len() ==> pairs.contains(#[trigger] rewrite_order(pairs)[a]),
        forall|a: int|
            0 <= a < pairs.len() ==> rewrite_order(pairs).contains(#[trigger] pairs[a]),
        forall|a: int, b: int|
            0 <= a < b < pairs.len() ==> #[trigger] rewrite_order(pairs)[a].0.len()
                >= #[trigger] rewrite_order(pairs)[b].0.len(),
    decreases pairs.len(),
{
    if pairs.len() > 0 {
        let j = longest_index(pairs);
        lemma_longest_index(pairs);
        let rest = pairs.remove(j);
        lemma_rewrite_order_sorted(rest);
        let order = rewrite_order(pairs);
        assert(order == seq![pairs[j]] + rewrite_order(rest));
        assert forall|a: int| 0 <= a < pairs.len() implies pairs.contains(#[trigger] order[a]) by {
            if a == 0 {
                assert(pairs[j] == order[a]);
            } else {
                assert(order[a] == rewrite_order(rest)[a - 1]);
                assert(rest.contains(order[a]));
                let k = choose|k: int| 0 <= k < rest.len() && rest[k] == order[a];
                if k < j {
                    assert(pairs[k] == order[a]);
                } else {
                    assert(pairs[k + 1] == order[a]);
                }
            }
        }
        assert forall|a: int| 0 <= a < pairs.len() implies order.contains(#[trigger] pairs[a]) by {
            if a == j {
                assert(order[0] == pairs[a]);
            } else {
                let k = if a < j { a } else { a - 1 };
                assert(rest[k] == pairs[a]);
                assert(rewrite_order(rest).contains(rest[k]));
                let m = choose|m: int| 0 <= m < rest.len() && rewrite_order(rest)[m] == rest[k];
                assert(order[m + 1] == pairs[a]);
            }
        }
        assert forall|a: int, b: int| 0 <= a < b < pairs.len() implies #[trigger] order[a].0.len()
            >= #[trigger] order[b].0.len() by {
            assert(pairs.contains(order[b]));
            if a == 0 {
                let k = choose|k: int| 0 <= k < pairs.len() && pairs[k] == order[b];
                assert(pairs[k].0.len() <= pairs[j].0.len());
            } else {
                assert(order[a] == rewrite_order(rest)[a - 1]);
                assert(order[b] == rewrite_order(rest)[b - 1]);
            }
        }
    }
}

/// A pair given once is applied once.
pub(crate) proof fn lemma_unique_in_order(
    pairs: Seq<(Seq<char>, Seq<char>)>,
    x: (Seq<char>, Seq<char>),
    at: int,
)
    requires
        0 <= at < pairs.len(),
        pairs[at] == x,
        forall|m: int| 0 <= m < pairs.len() && #[trigger] pairs[m] == x ==> m == at,
    ensures
        forall|a: int, b: int|
            0 <= a < pairs.len() && 0 <= b < pairs.len() && #[trigger] rewrite_order(pairs)[a]
                == x && #[trigger] rewrite_order(pairs)[b] == x ==> a == b,
    decreases pairs.len(),
{
    let j = longest_index(pairs);
    lemma_longest_index(pairs);
    let rest = pairs.remove(j);
    let order = rewrite_order(pairs);
    lemma_rewrite_order_sorted(rest);
    assert(order == seq![pairs[j]] + rewrite_order(rest));
    if pairs[j] == x {
        assert(j == at);
        assert forall|a: int| 0 <= a < rest.len() implies #[trigger] rewrite_order(rest)[a] != x by {
            assert(rest.contains(rewrite_order(rest)[a]));
            if rewrite_order(rest)[a] == x {
                let k = choose|k: int| 0 <= k < rest.len() && rest[k] == x;
                if k < j {
                    assert(pairs[k] == x);
                } else {
                    assert(pairs[k + 1] == x);
                }
            }
        }
        assert forall|a: int, b: int|
            0 <= a < pairs.len() && 0 <= b < pairs.len() && #[trigger] order[a] == x
                && #[trigger] order[b] == x implies a == b by {
            if a > 0 {
                assert(order[a] == rewrite_order(rest)[a - 1]);
            }
            if b > 0 {
                assert(order[b] == rewrite_order(rest)[b - 1]);
            }
        }
    } else {
        let at2 = if at < j { at } else { at - 1 };
        assert(rest[at2] == x);
        assert forall|m: int| 0 <= m < rest.len() && #[trigger] rest[m] == x implies m == at2 by {
            if m < j {
                assert(pairs[m] == x);
            } else {
                assert(pairs[m + 1] == x);
            }
        }
        lemma_unique_in_order(rest, x, at2);
        assert forall|a: int, b: int|
            0 <= a < pairs.len() && 0 <= b < pairs.len() && #[trigger] order[a] == x
                && #[trigger] order[b] == x implies a == b by {
            if a > 0 && b > 0 {
                assert(order[a] == rewrite_order(rest)[a - 1]);
                assert(order[b] == rewrite_order(rest)[b - 1]);
            }
        }
    }
}

/// Longest first: where one pattern occurs inside a longer one, the rewrite replaces
/// the longer pattern before it replaces the shorter, so an occurrence of the longer
/// pattern is never broken up by the shorter one's replacement.
pub proof fn lemma_longer_pattern_applied_first(
    pairs: Seq<(Seq<char>, Seq<char>)>,
    shorter: int,
    longer: int,
)
    requires
        0 <= shorter < rewrite_order(pairs).len(),
        0 <= longer < rewrite_order(pairs).len(),
        is_proper_infix(rewrite_order(pairs)[shorter].0, rewrite_order(pairs)[longer].0),
    ensures
        longer < shorter,
{
    lemma_rewrite_order_sorted(pairs);
    if shorter < longer {
        assert(rewrite_order(pairs)[shorter].0.len() >= rewrite_order(pairs)[longer].0.len());
    }
}

/// `part` occurs in `whole` as a contiguous piece.
pub open spec fn contains_text(whole: Seq<char>, part: Seq<char>) -> bool {
    exists|i: int|
        0 <= i && i + part.len() <= whole.len() && #[trigger] whole.subrange(i, i + part.len())
            == part
}

/// A text that does not hold the pattern is left as it is.
proof fn lemma_replace_absent(text: Seq<char>, pat: Seq<char>, rep: Seq<char>)
    requires
        pat.len() > 0,
        !contains_text(text, pat),
    ensures
        replace_all(text, pat, rep) == text,
    decreases text.len(),
{
    if text.len() >= pat.len() {
        if text.subrange(0, pat.len() as int) == pat {
            assert(text.subrange(0int, 0int + pat.len()) == pat);
        }
        let rest = text.skip(1);
        assert(!contains_text(rest, pat)) by {
            if contains_text(rest, pat) {
                let i = choose|i: int|
                    0 <= i && i + pat.len() <= rest.len() && #[trigger] rest.subrange(
                        i,
                        i + pat.len(),
                    ) == pat;
                assert(text.subrange(i + 1, i + 1 + pat.len()) =~= rest.subrange(i, i + pat.len()));
            }
        }
        lemma_replace_absent(rest, pat, rep);
        assert(seq![text[0]] + rest =~= text);
    }
}

/// A text that is exactly the pattern becomes the replacement.
proof fn lemma_replace_whole(pat: Seq<char>, rep: Seq<char>)
    requires
        pat.len() > 0,
    ensures
        replace_all(pat, pat, rep) == rep,
{
    assert(pat.subrange(0, pat.len() as int) =~= pat);
    assert(pat.skip(pat.len() as int) =~= Seq::<char>::empty());
    assert(replace_all(Seq::<char>::empty(), pat, rep) == Seq::<char>::empty());
    assert(rep + Seq::<char>::empty() =~= rep);
}

/// A text in which no pattern occurs goes through the pairs unchanged.
proof fn lemma_apply_absent(text: Seq<char>, order: Seq<(Seq<char>, Seq<char>)>)
    requires
        forall|i: int|
            0 <= i < order.len() ==> (#[trigger] order[i]).0.len() == 0 || !contains_text(
                text,
                order[i].0,
            ),
    ensures
        apply_in_order(text, order) == text,
    decreases order.len(),
{
    if order.len() > 0 {
        if order[0].0.len() > 0 {
            lemma_replace_absent(text, order[0].0, order[0].1);
        }
        assert forall|i: int| 0 <= i < order.skip(1).len() implies (#[trigger] order.skip(1)[i]).0.len()
            == 0 || !contains_text(text, order.skip(1)[i].0) by {
            assert(order.skip(1)[i] == order[i + 1]);
        }
        lemma_apply_absent(text, order.skip(1));
    }
}

/// The only occurrence of `pat` in `text` starts at `at`.
pub open spec fn occurs_only_at(text: Seq<char>, pat: Seq<char>, at: int) -> bool {
    forall|i: int|
        0 <= i && i + pat.len() <= text.len() && #[trigger] text.subrange(i, i + pat.len())
            == pat ==> i == at
}

/// A pattern that occurs once, after `before`, is replaced there and nowhere else.
proof fn lemma_replace_single(before: Seq<char>, pat: Seq<char>, after: Seq<char>, rep: Seq<char>)
    requires
        pat.len() > 0,
        occurs_only_at(before + pat + after, pat, before.len() as int),
    ensures
        replace_all(before + pat + after, pat, rep) == before + rep + after,
    decreases before.len(),
{
    let text = before + pat + after;
    if before.len() == 0 {
        assert(text.subrange(0, pat.len() as int) =~= pat);
        assert(text.skip(pat.len() as int) =~= after);
        assert(!contains_text(after, pat)) by {
            if contains_text(after, pat) {
                let i = choose|i: int|
                    0 <= i && i + pat.len() <= after.len() && #[trigger] after.subrange(
                        i,
                        i + pat.len(),
                    ) == pat;
                let q = pat.len() + i;
                assert(text.subrange(q, q + pat.len()) =~= after.subrange(i, i + pat.len()));
            }
        }
        lemma_replace_absent(after, pat, rep);
        assert(before + rep + after =~= rep + after);
    } else {
        if text.subrange(0, pat.len() as int) == pat {
            assert(text.subrange(0int, 0int + pat.len()) == pat);
        }
        let rest = before.skip(1);
        assert(text.skip(1) =~= rest + pat + after);
        assert forall|i: int|
            0 <= i && i + pat.len() <= (rest + pat + after).len() && #[trigger] (rest + pat
                + after).subrange(i, i + pat.len()) == pat implies i == rest.len() by {
            assert(text.subrange(i + 1, i + 1 + pat.len()) =~= (rest + pat + after).subrange(
                i,
                i + pat.len(),
            ));
        }
        lemma_replace_single(rest, pat, after, rep);
        assert(seq![text[0]] + (rest + rep + after) =~= before + rep + after);
    }
}

/// A text in which a pattern occurs once becomes the text with that occurrence
/// replaced, when no pattern applied before that pattern's pair occurs in the text,
/// and no pattern applied after it occurs in the result.
pub(crate) proof fn lemma_apply_single_occurrence(
    before: Seq<char>,
    pat: Seq<char>,
    after: Seq<char>,
    rep: Seq<char>,
    order: Seq<(Seq<char>, Seq<char>)>,
    j: int,
)
    requires
        pat.len() > 0,
        0 <= j < order.len(),
        order[j] == (pat, rep),
        occurs_only_at(before + pat + after, pat, before.len() as int),
        forall|i: int|
            0 <= i < j ==> (#[trigger] order[i]).0.len() == 0 || !contains_text(
                before + pat + after,
                order[i].0,
            ),
        forall|i: int|
            j < i < order.len() ==> (#[trigger] order[i]).0.len() == 0 || !contains_text(
                before + rep + after,
                order[i].0,
            ),
    ensures
        apply_in_order(before + pat + after, order) == before + rep + after,
    decreases order.len(),
{
    let rest = order.skip(1);
    let text = before + pat + after;
    if j == 0 {
        lemma_replace_single(before, pat, after, rep);
        assert forall|i: int| 0 <= i < rest.len() implies (#[trigger] rest[i]).0.len() == 0
            || !contains_text(before + rep + after, rest[i].0) by {
            assert(rest[i] == order[i + 1]);
        }
        lemma_apply_absent(before + rep + after, rest);
    } else {
        if order[0].0.len() > 0 {
            lemma_replace_absent(text, order[0].0, order[0].1);
        }
        assert forall|i: int| 0 <= i < j - 1 implies (#[trigger] rest[i]).0.len() == 0
            || !contains_text(text, rest[i].0) by {
            assert(rest[i] == order[i + 1]);
        }
        assert forall|i: int| j - 1 < i < rest.len() implies (#[trigger] rest[i]).0.len() == 0
            || !contains_text(before + rep + after, rest[i].0) by {
            assert(rest[i] == order[i + 1]);
        }
        lemma_apply_single_occurrence(before, pat, after, rep, rest, j - 1);
    }
}

/// An address text that holds a shorter one keeps its own label: rewriting exactly
/// the longer pattern, with the shorter pattern given before or after it, gives the
/// longer one's replacement, untouched by the shorter one, wherever that replacement
/// does not itself hold the shorter pattern.
pub proof fn lemma_longer_pattern_keeps_its_replacement(
    short: Seq<char>,
    short_rep: Seq<char>,
    long: Seq<char>,
    long_rep: Seq<char>,
)
    requires
        short.len() > 0,
        is_proper_infix(short, long),
        !contains_text(long_rep, short),
    ensures
        rewritten(long, seq![(short, short_rep), (long, long_rep)]) == long_rep,
        rewritten(long, seq![(long, long_rep), (short, short_rep)]) == long_rep,
{
    lemma_replace_whole(long, long_rep);
    lemma_replace_absent(long_rep, short, short_rep);
    let a = seq![(short, short_rep), (long, long_rep)];
    let b = seq![(long, long_rep), (short, short_rep)];
    assert(longest_index(a.drop_last()) == 0);
    assert(longest_index(a) == 1);
    assert(a.remove(1) =~= seq![(short, short_rep)]);
    assert(longest_index(seq![(short, short_rep)]) == 0);
    let single = seq![(short, short_rep)];
    let none = Seq::<(Seq<char>, Seq<char>)>::empty();
    assert(single.remove(0) =~= none);
    assert(rewrite_order(none) == none);
    assert(rewrite_order(single) == seq![single[0]] + rewrite_order(none));
    assert(rewrite_order(single) =~= single);
    assert(rewrite_order(a) == seq![a[1]] + rewrite_order(a.remove(1)));
    assert(rewrite_order(a) =~= seq![(long, long_rep), (short, short_rep)]);
    assert(longest_index(b.drop_last()) == 0);
    assert(longest_index(b) == 0);
    assert(b.remove(0) =~= seq![(short, short_rep)]);
    assert(rewrite_order(b) == seq![b[0]] + rewrite_order(b.remove(0)));
    assert(rewrite_order(b) =~= seq![(long, long_rep), (short, short_rep)]);
    let order = seq![(long, long_rep), (short, short_rep)];
    assert(order.skip(1) =~= seq![(short, short_rep)]);
    assert(order.skip(1).skip(1) =~= none);
    assert(apply_in_order(long_rep, none) == long_rep);
    assert(apply_in_order(long_rep, order.skip(1)) == apply_in_order(
        replace_all(long_rep, short, short_rep),
        order.skip(1).skip(1),
    ));
    assert(apply_in_order(long, order) == apply_in_order(
        replace_all(long, long, long_rep),
        order.skip(1),
    ));
}

/// The index of the first pair whose pattern is longest, in a vector.
fn find_longest(pairs: &Vec<(String, String)>) -> (r: usize)
    requires
        pairs@.len() > 0,
    ensures
        r == longest_index(pairs_view(pairs@)),
        r < pairs@.len(),
{
    let ghost all = pairs_view(pairs@);
    let mut best: usize = 0;
    let mut best_len: usize = pairs[0].0.as_str().unicode_len();
    let mut i: usize = 1;
    while i < pairs.len()
        invariant
            1 <= i <= pairs@.len(),
            all == pairs_view(pairs@),
            best == longest_index(all.take(i as int)),
            best < i,
            best_len == all[best as int].0.len(),
        decreases pairs.len() - i,
    {
        assert(all.take(i + 1).drop_last() =~= all.take(i as int));
        let len = pairs[i].0.as_str().unicode_len();
        if len > best_len {
            best = i;
            best_len = len;
        }
        i = i + 1;
    }
    assert(all.take(pairs@.len() as int) =~= all);
    proof {
        lemma_longest_index(all);
    }
    best
}

/// `text` rewritten by the pairs of pattern and replacement, longest pattern first
/// (see `rewritten`).
pub fn rewrite_longest_first(text: &String, pairs: Vec<(String, String)>) -> (r: String)
    ensures
        r@ == rewritten(text@, pairs_view(pairs@)),
{
    let ghost all = pairs_view(pairs@);
    let mut remaining = pairs;
    let mut current = text.clone();
    while remaining.len() > 0
        invariant
            rewritten(text@, all) == apply_in_order(current@, rewrite_order(pairs_view(remaining@))),
        decreases remaining.len(),
    {
        let j = find_longest(&remaining);
        let ghost before = pairs_view(remaining@);
        let (pat, rep) = remaining.remove(j);
        assert(pairs_view(remaining@) =~= before.remove(j as int));
        let ghost order = rewrite_order(before);
        assert(order[0] == (pat@, rep@));
        assert(order.skip(1) =~= rewrite_order(pairs_view(remaining@)));
        current = replace_text(&current, &pat, &rep);
    }
    current
}

} // verus!
