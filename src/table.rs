//! Fragments of a command, the candidate texts inside them, and the savings
//! table that ranks the repeated ones.

use vstd::prelude::*;
use crate::names::{chosen_name, var_name};
use crate::text::{alnum, is_alnum, is_white, same_text, texts_of, white};

verus! {

/// Whether a character ends a fragment.
pub open spec fn is_delim(c: char) -> bool {
    white(c) || c == ';' || c == '\'' || c == '"'
}

/// The scan behind the fragments: those finished so far, and the text after
/// the last delimiter or `=` seen.
pub open spec fn frag_scan(s: Seq<char>) -> (Seq<Seq<char>>, Seq<char>)
    decreases s.len(),
{
    if s.len() == 0 {
        (seq![], seq![])
    } else {
        let (d, cur) = frag_scan(s.drop_last());
        let c = s.last();
        if is_delim(c) {
            (if cur.len() > 0 { d.push(cur) } else { d }, seq![])
        } else if c == '=' {
            (d, seq![])
        } else {
            (d, cur.push(c))
        }
    }
}

/// The fragments of a command: the non-empty pieces between delimiters, each
/// cut to what follows its last `=`.
pub open spec fn fragments_of(s: Seq<char>) -> Seq<Seq<char>> {
    let (d, cur) = frag_scan(s);
    if cur.len() > 0 {
        d.push(cur)
    } else {
        d
    }
}

/// `p` stands in `s` at position `k`.
pub open spec fn occurs_at(s: Seq<char>, p: Seq<char>, k: int) -> bool {
    0 <= k && k + p.len() <= s.len() && s.subrange(k, k + p.len()) == p
}

/// `p` stands somewhere in `s`.
pub open spec fn occurs(s: Seq<char>, p: Seq<char>) -> bool {
    exists|k: int| occurs_at(s, p, k)
}

proof fn lemma_occurs_push(s: Seq<char>, p: Seq<char>, c: char)
    requires
        occurs(s, p),
    ensures
        occurs(s.push(c), p),
{
    let k = choose|k: int| occurs_at(s, p, k);
    assert(s.push(c).subrange(k, k + p.len()) =~= s.subrange(k, k + p.len()));
    assert(occurs_at(s.push(c), p, k));
}

proof fn lemma_frag_scan_occurs(s: Seq<char>)
    ensures
        forall|i: int| 0 <= i < frag_scan(s).0.len() ==> occurs(s, #[trigger] frag_scan(s).0[i]),
        frag_scan(s).1.len() <= s.len(),
        s.subrange(s.len() - frag_scan(s).1.len(), s.len() as int) == frag_scan(s).1,
    decreases s.len(),
{
    if s.len() > 0 {
        let t = s.drop_last();
        lemma_frag_scan_occurs(t);
        let (d, cur) = frag_scan(t);
        let c = s.last();
        assert(s == t.push(c));
        assert forall|i: int| 0 <= i < d.len() implies occurs(s, #[trigger] d[i]) by {
            lemma_occurs_push(t, d[i], c);
        }
        if is_delim(c) {
            if cur.len() > 0 {
                assert(occurs_at(t, cur, t.len() - cur.len()));
                lemma_occurs_push(t, cur, c);
            }
            assert(s.subrange(s.len() as int, s.len() as int) =~= seq![]);
        } else if c == '=' {
            assert(s.subrange(s.len() as int, s.len() as int) =~= seq![]);
        } else {
            assert(s.subrange(s.len() - cur.len() - 1, s.len() as int) =~= cur.push(c));
        }
    }
}

/// Every fragment stands in the command.
pub proof fn lemma_fragments_occur(s: Seq<char>)
    ensures
        forall|i: int| 0 <= i < fragments_of(s).len() ==> occurs(s, #[trigger] fragments_of(s)[i]),
        forall|i: int| 0 <= i < fragments_of(s).len() ==> #[trigger] fragments_of(s)[i].len() > 0,
{
    lemma_frag_scan_occurs(s);
    lemma_frag_scan_nonempty(s);
    let (d, cur) = frag_scan(s);
    if cur.len() > 0 {
        assert(occurs_at(s, cur, s.len() - cur.len()));
    }
}

proof fn lemma_frag_scan_nonempty(s: Seq<char>)
    ensures
        forall|i: int| 0 <= i < frag_scan(s).0.len() ==> #[trigger] frag_scan(s).0[i].len() > 0,
    decreases s.len(),
{
    if s.len() > 0 {
        lemma_frag_scan_nonempty(s.drop_last());
        let (d, cur) = frag_scan(s.drop_last());
        if is_delim(s.last()) && cur.len() > 0 {
            assert forall|i: int| 0 <= i < d.push(cur).len() implies #[trigger] d.push(cur)[i].len()
                > 0 by {
                if i < d.len() {
                    assert(d.push(cur)[i] == d[i]);
                }
            }
        }
    }
}

/// Splits a command into its fragments.
pub fn fragments(s: &Vec<char>) -> (r: Vec<Vec<char>>)
    ensures
        texts_of(r@) == fragments_of(s@),
{
    let mut done: Vec<Vec<char>> = Vec::new();
    let mut cur: Vec<char> = Vec::new();
    let mut i: usize = 0;
    while i < s.len()
        invariant
            i <= s.len(),
            (texts_of(done@), cur@) == frag_scan(s@.take(i as int)),
        decreases s.len() - i,
    {
        let c = s[i];
        assert(s@.take(i + 1).drop_last() =~= s@.take(i as int));
        if is_white(c) || c == ';' || c == '\'' || c == '"' {
            if cur.len() > 0 {
                let piece = cur;
                done.push(piece);
                assert(texts_of(done@) =~= frag_scan(s@.take(i as int)).0.push(piece@));
            }
            cur = Vec::new();
        } else if c == '=' {
            cur = Vec::new();
        } else {
            cur.push(c);
        }
        i += 1;
        assert(cur@ =~= frag_scan(s@.take(i as int)).1);
    }
    assert(s@.take(i as int) =~= s@);
    if cur.len() > 0 {
        let piece = cur;
        done.push(piece);
        assert(texts_of(done@) =~= frag_scan(s@).0.push(piece@));
    }
    done
}

/// The scan behind the split points: the points found so far, and whether a
/// character that is not alphanumeric has been seen since the last one.
pub open spec fn split_scan(s: Seq<char>) -> (Seq<int>, bool)
    decreases s.len(),
{
    if s.len() == 0 {
        (seq![0], false)
    } else {
        let (p, a) = split_scan(s.drop_last());
        let c = s.last();
        let (p2, a2) = if a && alnum(c) {
            (p.push(s.len() - 1), false)
        } else {
            (p, a)
        };
        (p2, if !alnum(c) { true } else { a2 })
    }
}

/// Where candidates of a fragment may start and end: 0, the start of each
/// alphanumeric run that follows another character, and the length.
pub open spec fn split_points_of(s: Seq<char>) -> Seq<int> {
    split_scan(s).0.push(s.len() as int)
}

/// The points rise strictly and stay within the text.
pub open spec fn rising(p: Seq<int>, n: int) -> bool {
    &&& p.len() >= 1
    &&& p[0] == 0
    &&& forall|i: int, j: int| 0 <= i < j < p.len() ==> p[i] < p[j]
    &&& forall|i: int| 0 <= i < p.len() ==> 0 <= #[trigger] p[i] <= n
}

proof fn lemma_split_scan_rising(s: Seq<char>)
    ensures
        split_scan(s).0.len() >= 1,
        split_scan(s).0[0] == 0,
        forall|i: int, j: int|
            0 <= i < j < split_scan(s).0.len() ==> split_scan(s).0[i] < split_scan(s).0[j],
        forall|i: int|
            0 <= i < split_scan(s).0.len() ==> 0 <= #[trigger] split_scan(s).0[i] < s.len()
                || (s.len() == 0 && split_scan(s).0[i] == 0),
        split_scan(s).1 ==> s.len() > 0,
    decreases s.len(),
{
    if s.len() > 0 {
        lemma_split_scan_rising(s.drop_last());
    }
}

/// The split points of a non-empty fragment rise strictly.
pub proof fn lemma_split_points_rising(s: Seq<char>)
    requires
        s.len() > 0,
    ensures
        rising(split_points_of(s), s.len() as int),
{
    lemma_split_scan_rising(s);
}

/// The split points of a fragment.
pub fn split_points(s: &Vec<char>) -> (r: Vec<usize>)
    ensures
        r@.map_values(|x: usize| x as int) == split_points_of(s@),
{
    let mut points: Vec<usize> = vec![0];
    let mut add: bool = false;
    let mut i: usize = 0;
    while i < s.len()
        invariant
            i <= s.len(),
            (points@.map_values(|x: usize| x as int), add) == split_scan(s@.take(i as int)),
        decreases s.len() - i,
    {
        let c = s[i];
        assert(s@.take(i + 1).drop_last() =~= s@.take(i as int));
        let a = is_alnum(c);
        if add && a {
            points.push(i);
            add = false;
        }
        if !a {
            add = true;
        }
        i += 1;
        assert(points@.map_values(|x: usize| x as int) =~= split_scan(s@.take(i as int)).0);
    }
    assert(s@.take(i as int) =~= s@);
    points.push(s.len());
    assert(points@.map_values(|x: usize| x as int) =~= split_points_of(s@));
    points
}

/// The candidates that start at split point `i`, by increasing end point.
pub open spec fn row(f: Seq<char>, p: Seq<int>, i: int) -> Seq<Seq<char>> {
    Seq::new((p.len() - i - 1) as nat, |d: int| f.subrange(p[i], p[i + 1 + d]))
}

/// The candidates that start at one of the first `i` split points.
pub open spec fn rows(f: Seq<char>, p: Seq<int>, i: nat) -> Seq<Seq<char>>
    decreases i,
{
    if i == 0 {
        seq![]
    } else {
        rows(f, p, (i - 1) as nat) + row(f, p, i - 1)
    }
}

/// Every text between two split points of a fragment, one entry per pair.
pub open spec fn frag_candidates(f: Seq<char>) -> Seq<Seq<char>> {
    rows(f, split_points_of(f), split_points_of(f).len())
}

/// The candidates of a list of fragments, fragment by fragment.
pub open spec fn all_candidates(frags: Seq<Seq<char>>) -> Seq<Seq<char>>
    decreases frags.len(),
{
    if frags.len() == 0 {
        seq![]
    } else {
        all_candidates(frags.drop_last()) + frag_candidates(frags.last())
    }
}

/// Every candidate of a command, one entry per occurrence.
pub open spec fn candidates_of(s: Seq<char>) -> Seq<Seq<char>> {
    all_candidates(fragments_of(s))
}

/// How many entries of a list equal `c`.
pub open spec fn count_of(l: Seq<Seq<char>>, c: Seq<char>) -> nat
    decreases l.len(),
{
    if l.len() == 0 {
        0
    } else {
        count_of(l.drop_last(), c) + if l.last() == c {
            1nat
        } else {
            0nat
        }
    }
}

/// A copy of `s[a..b]`.
fn copy_range(s: &Vec<char>, a: usize, b: usize) -> (r: Vec<char>)
    requires
        a <= b <= s.len(),
    ensures
        r@ == s@.subrange(a as int, b as int),
{
    let mut r: Vec<char> = Vec::new();
    let mut i: usize = a;
    while i < b
        invariant
            a <= i <= b <= s.len(),
            r@ == s@.subrange(a as int, i as int),
        decreases b - i,
    {
        r.push(s[i]);
        i += 1;
        assert(r@ =~= s@.subrange(a as int, i as int));
    }
    r
}

/// Lists every candidate of a command, one entry per occurrence.
pub fn candidates(s: &Vec<char>) -> (r: Vec<Vec<char>>)
    ensures
        texts_of(r@) == candidates_of(s@),
{
    let frags = fragments(s);
    let ghost fs = fragments_of(s@);
    proof {
        lemma_fragments_occur(s@);
    }
    let mut out: Vec<Vec<char>> = Vec::new();
    let mut fi: usize = 0;
    while fi < frags.len()
        invariant
            fi <= frags.len(),
            texts_of(frags@) == fs,
            forall|k: int| 0 <= k < fs.len() ==> #[trigger] fs[k].len() > 0,
            texts_of(out@) == all_candidates(fs.take(fi as int)),
        decreases frags.len() - fi,
    {
        let f = &frags[fi];
        assert(f@ == fs[fi as int]);
        let pts = split_points(f);
        let ghost p = split_points_of(f@);
        proof {
            lemma_split_points_rising(f@);
        }
        let ghost base = texts_of(out@);
        let mut i: usize = 0;
        while i < pts.len()
            invariant
                i <= pts.len(),
                pts@.map_values(|x: usize| x as int) == p,
                rising(p, f@.len() as int),
                texts_of(out@) == base + rows(f@, p, i as nat),
            decreases pts.len() - i,
        {
            let mut j: usize = i + 1;
            let ghost mid = texts_of(out@);
            while j < pts.len()
                invariant
                    i < j <= pts.len(),
                    i < pts.len(),
                    pts@.map_values(|x: usize| x as int) == p,
                    rising(p, f@.len() as int),
                    texts_of(out@) == mid + row(f@, p, i as int).take(j - i - 1),
                decreases pts.len() - j,
            {
                assert(p[i as int] == pts@[i as int] as int);
                assert(p[j as int] == pts@[j as int] as int);
                let c = copy_range(f, pts[i], pts[j]);
                assert(row(f@, p, i as int)[j - i - 1] == c@);
                assert(row(f@, p, i as int).take(j - i) =~= row(f@, p, i as int).take(j - i - 1).push(
                    c@,
                ));
                let ghost before = out@;
                out.push(c);
                assert(texts_of(out@) =~= texts_of(before).push(c@));
                j += 1;
                assert(texts_of(out@) =~= mid + row(f@, p, i as int).take(j - i - 1));
            }
            assert(row(f@, p, i as int).take(j - i - 1) =~= row(f@, p, i as int));
            i += 1;
            assert(texts_of(out@) =~= base + rows(f@, p, i as nat));
        }
        assert(fs.take(fi + 1).drop_last() =~= fs.take(fi as int));
        fi += 1;
        assert(texts_of(out@) =~= all_candidates(fs.take(fi as int)));
    }
    assert(fs.take(fi as int) =~= fs);
    out
}

proof fn lemma_count_bound(l: Seq<Seq<char>>, c: Seq<char>)
    ensures
        count_of(l, c) <= l.len(),
        count_of(l, c) > 0 ==> l.contains(c),
    decreases l.len(),
{
    if l.len() > 0 {
        lemma_count_bound(l.drop_last(), c);
        if count_of(l.drop_last(), c) > 0 {
            let k = choose|k: int| 0 <= k < l.drop_last().len() && l.drop_last()[k] == c;
            assert(l[k] == c);
        }
        if l.last() == c {
            assert(l[l.len() - 1] == c);
        }
    }
}

/// The distinct entries of a list, in the order of their first occurrence.
pub open spec fn first_occurrences(l: Seq<Seq<char>>) -> Seq<Seq<char>>
    decreases l.len(),
{
    if l.len() == 0 {
        seq![]
    } else {
        let d = first_occurrences(l.drop_last());
        if d.contains(l.last()) {
            d
        } else {
            d.push(l.last())
        }
    }
}

/// The distinct texts of a list, in the order of their first occurrence, each
/// with the number of its entries.
pub fn count_texts(l: &Vec<Vec<char>>) -> (r: (Vec<Vec<char>>, Vec<usize>))
    ensures
        texts_of(r.0@) == first_occurrences(texts_of(l@)),
        r.0.len() == r.1.len(),
        forall|a: int| 0 <= a < r.0.len() ==> r.1@[a] == count_of(texts_of(l@), #[trigger] r.0@[a]@),
        forall|a: int, b: int| 0 <= a < b < r.0.len() ==> r.0@[a]@ != r.0@[b]@,
        forall|c: Seq<char>| count_of(texts_of(l@), c) > 0 ==> #[trigger] texts_of(r.0@).contains(c),
{
    let ghost tl = texts_of(l@);
    let mut keys: Vec<Vec<char>> = Vec::new();
    let mut counts: Vec<usize> = Vec::new();
    let mut t: usize = 0;
    while t < l.len()
        invariant
            t <= l.len(),
            tl == texts_of(l@),
            texts_of(keys@) == first_occurrences(tl.take(t as int)),
            keys.len() == counts.len(),
            forall|a: int|
                0 <= a < keys.len() ==> counts@[a] == count_of(tl.take(t as int), #[trigger] keys@[a]@),
            forall|a: int| 0 <= a < keys.len() ==> #[trigger] counts@[a] <= t,
            forall|a: int, b: int| 0 <= a < b < keys.len() ==> keys@[a]@ != keys@[b]@,
            forall|c: Seq<char>|
                count_of(tl.take(t as int), c) > 0 ==> #[trigger] texts_of(keys@).contains(c),
        decreases l.len() - t,
    {
        let x = &l[t];
        let ghost pre = tl.take(t as int);
        let ghost post = tl.take(t + 1);
        assert(post.drop_last() =~= pre);
        assert(post.last() == x@);
        let mut a: usize = 0;
        while a < keys.len() && !same_text(&keys[a], x)
            invariant
                a <= keys.len(),
                forall|b: int| 0 <= b < a ==> keys@[b]@ != x@,
            decreases keys.len() - a,
        {
            a += 1;
        }
        if a < keys.len() {
            assert(keys@[a as int]@ == x@);
            assert(texts_of(keys@)[a as int] == x@);
            assert(first_occurrences(post) == first_occurrences(pre));
            let ghost old_counts = counts@;
            let v = counts[a] + 1;
            counts.set(a, v);
            assert forall|b: int| 0 <= b < keys.len() implies counts@[b] == count_of(
                post,
                #[trigger] keys@[b]@,
            ) by {
                if b != a {
                    assert(counts@[b] == old_counts[b]);
                }
            }
            assert forall|c: Seq<char>| count_of(post, c) > 0 implies #[trigger] texts_of(
                keys@,
            ).contains(c) by {
                if count_of(pre, c) == 0 {
                    assert(c == x@);
                    assert(texts_of(keys@)[a as int] == c);
                }
            }
        } else {
            let ghost old_keys = keys@;
            let ghost old_counts = counts@;
            assert(!texts_of(keys@).contains(x@)) by {
                if texts_of(keys@).contains(x@) {
                    let b = choose|b: int| 0 <= b < texts_of(keys@).len() && texts_of(keys@)[b] == x@;
                    assert(keys@[b]@ == x@);
                }
            }
            let xc = x.clone();
            assert(xc@ == x@);
            keys.push(xc);
            counts.push(1);
            assert(texts_of(keys@) =~= texts_of(old_keys).push(x@));
            proof {
                lemma_count_bound(pre, x@);
                if count_of(pre, x@) > 0 {
                    assert(texts_of(old_keys).contains(x@));
                    let b = choose|b: int| 0 <= b < texts_of(old_keys).len() && texts_of(old_keys)[b] == x@;
                    assert(old_keys[b]@ == x@);
                }
            }
            assert forall|b: int| 0 <= b < keys.len() implies counts@[b] == count_of(
                post,
                #[trigger] keys@[b]@,
            ) by {
                if b < old_keys.len() {
                    assert(keys@[b] == old_keys[b]);
                    assert(counts@[b] == old_counts[b]);
                }
            }
            assert forall|c: Seq<char>| count_of(post, c) > 0 implies #[trigger] texts_of(
                keys@,
            ).contains(c) by {
                if count_of(pre, c) > 0 {
                    assert(texts_of(old_keys).contains(c));
                    let b = choose|b: int| 0 <= b < texts_of(old_keys).len() && texts_of(old_keys)[b] == c;
                    assert(keys@[b] == old_keys[b]);
                    assert(texts_of(keys@)[b] == c);
                } else {
                    assert(c == x@);
                    assert(texts_of(keys@)[old_keys.len() as int] == c);
                }
            }
        }
        t += 1;
    }
    assert(tl.take(t as int) =~= tl);
    (keys, counts)
}

/// A number held to the range of `i128`.
pub open spec fn clamped(x: int) -> int {
    if x > i128::MAX {
        i128::MAX as int
    } else if x < i128::MIN {
        i128::MIN as int
    } else {
        x
    }
}

/// What binding a text that stands `n` times to a variable saves, given the
/// names in use: `n` times its length less that of the name and of the `${}`
/// around it. Lengths count characters, which on ASCII text are its bytes.
pub open spec fn score_of(n: nat, c: Seq<char>, used: Seq<Seq<char>>) -> int {
    clamped(n as int * (c.len() - chosen_name(c, used).len() - 3))
}

/// The savings of candidate `c` of command `s`, given the names in use.
pub open spec fn savings_of(s: Seq<char>, used: Seq<Seq<char>>, c: Seq<char>) -> int {
    score_of(count_of(candidates_of(s), c), c, used)
}

/// The savings of a candidate that stands `count` times.
fn score(used: &Vec<Vec<char>>, key: &Vec<char>, count: usize) -> (r: i128)
    requires
        used@.len() < usize::MAX - 12,
    ensures
        r == score_of(count as nat, key@, texts_of(used@)),
{
    let name = var_name(used, key);
    savings(count, key.len(), name.len())
}

/// The savings of one candidate, from its count and its name.
fn savings(count: usize, text_len: usize, name_len: usize) -> (r: i128)
    ensures
        r == clamped(count as int * (text_len - name_len - 3)),
{
    let diff: i128 = text_len as i128 - name_len as i128 - 3;
    match (count as i128).checked_mul(diff) {
        Some(v) => v,
        None => {
            if diff > 0 {
                assert(count as int * diff >= 0) by (nonlinear_arith)
                    requires
                        count >= 0,
                        diff > 0,
                ;
                i128::MAX
            } else {
                assert(count as int * diff <= 0) by (nonlinear_arith)
                    requires
                        count >= 0,
                        diff <= 0,
                ;
                i128::MIN
            }
        },
    }
}

/// A table's entries as texts and savings.
pub open spec fn entry_views(t: Seq<(Vec<char>, i128)>) -> Seq<(Seq<char>, i128)> {
    t.map_values(|e: (Vec<char>, i128)| (e.0@, e.1))
}

/// The entries rank by savings, highest first.
pub open spec fn ranked(t: Seq<(Seq<char>, i128)>) -> bool {
    forall|i: int, j: int| 0 <= i < j < t.len() ==> t[i].1 >= t[j].1
}

/// No two entries have the same text.
pub open spec fn distinct_texts(t: Seq<(Seq<char>, i128)>) -> bool {
    forall|a: int, b: int| 0 <= a < b < t.len() ==> t[a].0 != t[b].0
}

/// Where an entry with savings `v` goes in a ranked list: after every entry
/// at the front that saves at least as much.
pub open spec fn rank_position(s: Seq<(Seq<char>, i128)>, v: i128) -> int
    decreases s.len(),
{
    if s.len() == 0 {
        0
    } else if s[0].1 >= v {
        1 + rank_position(s.skip(1), v)
    } else {
        0
    }
}

/// Entries ranked by savings, highest first, each entry put after the ones
/// before it that save as much: entries with equal savings keep their order.
pub open spec fn ranked_order(s: Seq<(Seq<char>, i128)>) -> Seq<(Seq<char>, i128)>
    decreases s.len(),
{
    if s.len() == 0 {
        seq![]
    } else {
        let r = ranked_order(s.drop_last());
        r.insert(rank_position(r, s.last().1), s.last())
    }
}

proof fn lemma_rank_position(s: Seq<(Seq<char>, i128)>, v: i128, pos: int)
    requires
        0 <= pos <= s.len(),
        forall|i: int| 0 <= i < pos ==> s[i].1 >= v,
        pos == s.len() || s[pos].1 < v,
    ensures
        rank_position(s, v) == pos,
    decreases pos,
{
    if pos > 0 {
        assert(s[0].1 >= v);
        let t = s.skip(1);
        assert forall|i: int| 0 <= i < pos - 1 implies t[i].1 >= v by {
            assert(t[i] == s[i + 1]);
        }
        if pos < s.len() {
            assert(t[pos - 1] == s[pos]);
        }
        lemma_rank_position(t, v, pos - 1);
    }
}

/// Orders entries by savings, highest first; entries with equal savings keep
/// their order.
pub fn rank(entries: Vec<(Vec<char>, i128)>) -> (r: Vec<(Vec<char>, i128)>)
    ensures
        entry_views(r@) == ranked_order(entry_views(entries@)),
        r.len() == entries.len(),
        ranked(entry_views(r@)),
        forall|e: (Seq<char>, i128)|
            entry_views(r@).contains(e) <==> entry_views(entries@).contains(e),
        distinct_texts(entry_views(entries@)) ==> distinct_texts(entry_views(r@)),
{
    let ghost ve = entry_views(entries@);
    let ghost distinct = distinct_texts(ve);
    let mut out: Vec<(Vec<char>, i128)> = Vec::new();
    let mut k: usize = 0;
    while k < entries.len()
        invariant
            k <= entries.len(),
            ve == entry_views(entries@),
            out.len() == k,
            entry_views(out@) == ranked_order(ve.take(k as int)),
            ranked(entry_views(out@)),
            forall|e: (Seq<char>, i128)|
                entry_views(out@).contains(e) <==> ve.take(k as int).contains(e),
            distinct == distinct_texts(ve),
            distinct ==> distinct_texts(entry_views(out@)),
        decreases entries.len() - k,
    {
        let e = (entries[k].0.clone(), entries[k].1);
        let ghost ev = (e.0@, e.1);
        assert(ev == ve[k as int]);
        let mut pos: usize = 0;
        while pos < out.len() && out[pos].1 >= e.1
            invariant
                pos <= out.len(),
                forall|i: int| 0 <= i < pos ==> out@[i].1 >= e.1,
            decreases out.len() - pos,
        {
            pos += 1;
        }
        let ghost before = entry_views(out@);
        proof {
            before.insert_ensures(pos as int, ev);
            assert forall|i: int| 0 <= i < pos implies before[i].1 >= ev.1 by {
                assert(before[i].1 == out@[i].1);
            }
            lemma_rank_position(before, ev.1, pos as int);
            assert(ve.take(k + 1).drop_last() =~= ve.take(k as int));
        }
        out.insert(pos, e);
        let ghost vo = entry_views(out@);
        assert(vo =~= before.insert(pos as int, ev));
        let ghost pk = ve.take(k as int);
        assert(ve.take(k + 1) =~= pk.push(ev));
        assert forall|i: int, j: int| 0 <= i < j < vo.len() implies vo[i].1 >= vo[j].1 by {
            if j < pos {
            } else if j == pos {
            } else if i < pos {
                assert(vo[j] == before[j - 1]);
            } else if i == pos {
                assert(vo[j] == before[j - 1]);
                assert(before[pos as int].1 < ev.1);
            } else {
                assert(vo[i] == before[i - 1]);
                assert(vo[j] == before[j - 1]);
            }
        }
        assert forall|x: (Seq<char>, i128)| vo.contains(x) <==> ve.take(k + 1).contains(x) by {
            if vo.contains(x) {
                let i = choose|i: int| 0 <= i < vo.len() && vo[i] == x;
                if i < pos {
                    assert(before[i] == x);
                    assert(before.contains(x));
                } else if i > pos {
                    assert(before[i - 1] == x);
                    assert(before.contains(x));
                }
                if x != ev {
                    assert(pk.contains(x));
                    let m = choose|m: int| 0 <= m < pk.len() && pk[m] == x;
                    assert(ve.take(k + 1)[m] == x);
                }
                assert(ve.take(k + 1)[k as int] == ev);
            }
            if ve.take(k + 1).contains(x) {
                let m = choose|m: int| 0 <= m < k + 1 && #[trigger] ve.take(k + 1)[m] == x;
                if m < k {
                    assert(pk[m] == x);
                    assert(before.contains(x));
                    let i = choose|i: int| 0 <= i < before.len() && before[i] == x;
                    if i < pos {
                        assert(vo[i] == x);
                    } else {
                        assert(vo[i + 1] == x);
                    }
                } else {
                    assert(vo[pos as int] == x);
                }
            }
        }
        proof {
            if distinct {
                assert forall|y: (Seq<char>, i128)| #[trigger] before.contains(y) implies y.0 != ev.0 by {
                    assert(pk.contains(y));
                    let m = choose|m: int| 0 <= m < pk.len() && pk[m] == y;
                    assert(ve[m] == y);
                }
                assert forall|i: int, j: int| 0 <= i < j < vo.len() implies vo[i].0 != vo[j].0 by {
                    if i == pos {
                        assert(vo[j] == before[j - 1]);
                        assert(before.contains(before[j - 1]));
                    } else if j == pos {
                        assert(vo[i] == before[i]);
                        assert(before.contains(before[i]));
                    } else if j < pos {
                        assert(vo[i] == before[i]);
                        assert(vo[j] == before[j]);
                    } else if i < pos {
                        assert(vo[i] == before[i]);
                        assert(vo[j] == before[j - 1]);
                    } else {
                        assert(vo[i] == before[i - 1]);
                        assert(vo[j] == before[j - 1]);
                    }
                }
            }
        }
        k += 1;
    }
    assert(ve.take(k as int) =~= ve);
    out
}

/// The texts of `keys` that stand at least twice in `l`, in order, each with
/// its savings given the names in `used`.
pub open spec fn scored(keys: Seq<Seq<char>>, l: Seq<Seq<char>>, used: Seq<Seq<char>>) -> Seq<
    (Seq<char>, i128),
>
    decreases keys.len(),
{
    if keys.len() == 0 {
        seq![]
    } else {
        let prev = scored(keys.drop_last(), l, used);
        let k = keys.last();
        if count_of(l, k) >= 2 {
            prev.push((k, score_of(count_of(l, k), k, used) as i128))
        } else {
            prev
        }
    }
}

/// The savings table of command `s` given the names in `used`.
pub open spec fn savings_table_of(s: Seq<char>, used: Seq<Seq<char>>) -> Seq<(Seq<char>, i128)> {
    ranked_order(scored(first_occurrences(candidates_of(s)), candidates_of(s), used))
}

/// The savings table of a command: each candidate with at least two
/// entries among the candidates, with its savings (see `savings_of`), ranked
/// by savings, highest first. Candidates with equal savings stand in the
/// order of their first occurrence in the command.
#[verifier::rlimit(40)]
pub fn build_savings_table(used: &Vec<Vec<char>>, command: &Vec<char>) -> (r: Vec<
    (Vec<char>, i128),
>)
    requires
        used@.len() < usize::MAX - 12,
    ensures
        entry_views(r@) == savings_table_of(command@, texts_of(used@)),
        ranked(entry_views(r@)),
        distinct_texts(entry_views(r@)),
        forall|i: int|
            0 <= i < r.len() ==> count_of(candidates_of(command@), #[trigger] r@[i].0@) >= 2
                && r@[i].1 == savings_of(command@, texts_of(used@), r@[i].0@),
        forall|c: Seq<char>|
            count_of(candidates_of(command@), c) >= 2 ==> exists|i: int|
                0 <= i < r.len() && #[trigger] r@[i].0@ == c,
{
    let cands = candidates(command);
    let ghost cs = candidates_of(command@);
    let (keys, counts) = count_texts(&cands);
    let mut entries: Vec<(Vec<char>, i128)> = Vec::new();
    let mut a: usize = 0;
    assert(texts_of(keys@).take(0) =~= seq![]);
    assert(entry_views(entries@) =~= seq![]);
    while a < keys.len()
        invariant
            a <= keys.len(),
            keys.len() == counts.len(),
            used@.len() < usize::MAX - 12,
            cs == texts_of(cands@),
            cs == candidates_of(command@),
            texts_of(keys@) == first_occurrences(cs),
            entry_views(entries@) == scored(texts_of(keys@).take(a as int), cs, texts_of(used@)),
            forall|b: int| 0 <= b < keys.len() ==> counts@[b] == count_of(cs, #[trigger] keys@[b]@),
            forall|b: int, d: int| 0 <= b < d < keys.len() ==> keys@[b]@ != keys@[d]@,
            forall|i: int|
                0 <= i < entries.len() ==> count_of(cs, #[trigger] entries@[i].0@) >= 2
                    && entries@[i].1 == savings_of(command@, texts_of(used@), entries@[i].0@),
            forall|i: int|
                0 <= i < entries.len() ==> exists|b: int|
                    0 <= b < a && #[trigger] keys@[b]@ == #[trigger] entries@[i].0@,
            distinct_texts(entry_views(entries@)),
            forall|b: int|
                0 <= b < a && counts@[b] >= 2 ==> entry_views(entries@).map_values(
                    |e: (Seq<char>, i128)| e.0,
                ).contains(#[trigger] keys@[b]@),
        decreases keys.len() - a,
    {
        if counts[a] >= 2 {
            let sav = score(used, &keys[a], counts[a]);
            let ghost before = entries@;
            let key = keys[a].clone();
            entries.push((key, sav));
            assert(entries@[before.len() as int].0@ == keys@[a as int]@);
            assert(sav == savings_of(command@, texts_of(used@), keys@[a as int]@));
            assert(entry_views(entries@) =~= entry_views(before).push((keys@[a as int]@, sav)));
            assert(texts_of(keys@).take(a + 1).drop_last() =~= texts_of(keys@).take(a as int));
            assert(texts_of(keys@).take(a + 1).last() == keys@[a as int]@);
            assert(count_of(cs, entries@[before.len() as int].0@) >= 2);
            assert forall|b: int|
                0 <= b < a + 1 && counts@[b] >= 2 implies entry_views(entries@).map_values(
                |e: (Seq<char>, i128)| e.0,
            ).contains(#[trigger] keys@[b]@) by {
                let ts = entry_views(entries@).map_values(|e: (Seq<char>, i128)| e.0);
                let tb = entry_views(before).map_values(|e: (Seq<char>, i128)| e.0);
                if b == a {
                    assert(ts[before.len() as int] == keys@[b]@);
                } else {
                    assert(tb.contains(keys@[b]@));
                    let i = choose|i: int| 0 <= i < tb.len() && tb[i] == keys@[b]@;
                    assert(entries@[i] == before[i]);
                    assert(ts[i] == keys@[b]@);
                }
            }
            assert forall|i: int| 0 <= i < before.len() implies entries@[i] == before[i] by {}
            assert forall|i: int, j: int|
                0 <= i < j < entries.len() implies entry_views(entries@)[i].0 != entry_views(
                entries@,
            )[j].0 by {
                if j == before.len() {
                    let b = choose|b: int| 0 <= b < a && #[trigger] keys@[b]@ == before[i].0@;
                } else {
                    assert(entry_views(before)[i].0 != entry_views(before)[j].0);
                }
            }
        }
        proof {
            assert(texts_of(keys@).take(a + 1).drop_last() =~= texts_of(keys@).take(a as int));
            assert(texts_of(keys@).take(a + 1).last() == keys@[a as int]@);
        }
        a += 1;
    }
    assert(texts_of(keys@).take(a as int) =~= texts_of(keys@));
    let r = rank(entries);
    let ghost ve = entry_views(entries@);
    let ghost vr = entry_views(r@);
    assert forall|i: int| 0 <= i < r.len() implies count_of(cs, #[trigger] r@[i].0@) >= 2
        && r@[i].1 == savings_of(command@, texts_of(used@), r@[i].0@) by {
        assert(vr[i] == (r@[i].0@, r@[i].1));
        assert(vr.contains(vr[i]));
        let m = choose|m: int| 0 <= m < ve.len() && ve[m] == vr[i];
        assert(ve[m] == (entries@[m].0@, entries@[m].1));
    }
    assert forall|c: Seq<char>| count_of(cs, c) >= 2 implies exists|i: int|
        0 <= i < r.len() && #[trigger] r@[i].0@ == c by {
        assert(texts_of(cands@) == cs);
        assert(texts_of(keys@).contains(c));
        let b = choose|b: int| 0 <= b < texts_of(keys@).len() && texts_of(keys@)[b] == c;
        assert(keys@[b]@ == c);
        let te = ve.map_values(|e: (Seq<char>, i128)| e.0);
        assert(te.contains(keys@[b]@));
        let m = choose|m: int| 0 <= m < te.len() && te[m] == keys@[b]@;
        assert(ve[m] == (entries@[m].0@, entries@[m].1));
        assert(ve.contains(ve[m]));
        let i = choose|i: int| 0 <= i < vr.len() && vr[i] == ve[m];
        assert(vr[i] == (r@[i].0@, r@[i].1));
    }
    r
}

proof fn lemma_frag_scan_no_eq(s: Seq<char>)
    ensures
        forall|i: int, k: int|
            0 <= i < frag_scan(s).0.len() && 0 <= k < frag_scan(s).0[i].len() ==> #[trigger] frag_scan(
                s,
            ).0[i][k] != '=',
        forall|k: int| 0 <= k < frag_scan(s).1.len() ==> #[trigger] frag_scan(s).1[k] != '=',
    decreases s.len(),
{
    if s.len() > 0 {
        lemma_frag_scan_no_eq(s.drop_last());
        let (d, cur) = frag_scan(s.drop_last());
        let c = s.last();
        if is_delim(c) && cur.len() > 0 {
            assert forall|i: int, k: int|
                0 <= i < d.push(cur).len() && 0 <= k < d.push(cur)[i].len() implies #[trigger] d.push(
                cur,
            )[i][k] != '=' by {
                if i < d.len() {
                    assert(d.push(cur)[i] == d[i]);
                }
            }
        } else if !is_delim(c) && c != '=' {
            assert forall|k: int| 0 <= k < cur.push(c).len() implies #[trigger] cur.push(c)[k]
                != '=' by {
                if k < cur.len() {
                    assert(cur.push(c)[k] == cur[k]);
                }
            }
        }
    }
}

/// No fragment holds `=`: of an assignment only the text after its last `=`
/// is a fragment, so the name assigned to is never a candidate through it.
pub proof fn lemma_fragments_skip_assignments(s: Seq<char>)
    ensures
        forall|i: int, k: int|
            0 <= i < fragments_of(s).len() && 0 <= k < fragments_of(s)[i].len() ==> #[trigger] fragments_of(
                s,
            )[i][k] != '=',
{
    lemma_frag_scan_no_eq(s);
    let (d, cur) = frag_scan(s);
    if cur.len() > 0 {
        assert forall|i: int, k: int|
            0 <= i < d.push(cur).len() && 0 <= k < d.push(cur)[i].len() implies #[trigger] d.push(
            cur,
        )[i][k] != '=' by {
            if i < d.len() {
                assert(d.push(cur)[i] == d[i]);
            }
        }
    }
}

} // verus!
