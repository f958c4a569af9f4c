//! The greedy loop that binds the best candidate to a variable, substitutes
//! it, and starts over until nothing saves enough.

use vstd::prelude::*;
use crate::names::{first_free, lemma_naming_deterministic, proposal, taken, var_name};
use crate::table::{
    all_candidates, build_savings_table, candidates_of, count_of, entry_views, frag_candidates,
    fragments_of, lemma_fragments_occur, lemma_split_points_rising, occurs, occurs_at, rising,
    row, rows, savings_of, savings_table_of, split_points_of,
};
use crate::text::{ascii_seq, legal_name, texts_of};

verus! {

/// The reference to a variable: `${name}`.
pub open spec fn reference_of(name: Seq<char>) -> Seq<char> {
    seq!['$', '{'] + name + seq!['}']
}

/// `s` with every occurrence of `p` replaced by `r`, scanning from the left
/// and never overlapping.
pub open spec fn replaced(s: Seq<char>, p: Seq<char>, r: Seq<char>) -> Seq<char>
    decreases s.len(),
{
    if p.len() == 0 || s.len() < p.len() {
        s
    } else if s.take(p.len() as int) == p {
        r + replaced(s.skip(p.len() as int), p, r)
    } else {
        seq![s[0]] + replaced(s.skip(1), p, r)
    }
}

proof fn lemma_replaced_shorter(s: Seq<char>, p: Seq<char>, r: Seq<char>)
    requires
        p.len() > 0,
        r.len() < p.len(),
    ensures
        replaced(s, p, r).len() <= s.len(),
        occurs(s, p) ==> replaced(s, p, r).len() < s.len(),
    decreases s.len(),
{
    if s.len() >= p.len() {
        if s.take(p.len() as int) == p {
            lemma_replaced_shorter(s.skip(p.len() as int), p, r);
        } else {
            lemma_replaced_shorter(s.skip(1), p, r);
            if occurs(s, p) {
                let k = choose|k: int| occurs_at(s, p, k);
                if k == 0 {
                    assert(s.take(p.len() as int) =~= s.subrange(0, p.len() as int));
                } else {
                    assert(s.skip(1).subrange(k - 1, k - 1 + p.len()) =~= s.subrange(k, k + p.len()));
                    assert(occurs_at(s.skip(1), p, k - 1));
                }
            }
        }
    } else {
        if occurs(s, p) {
            let k = choose|k: int| occurs_at(s, p, k);
        }
    }
}

proof fn lemma_replaced_ascii(s: Seq<char>, p: Seq<char>, r: Seq<char>)
    requires
        ascii_seq(s),
        ascii_seq(r),
    ensures
        ascii_seq(replaced(s, p, r)),
    decreases s.len(),
{
    if p.len() == 0 || s.len() < p.len() {
    } else if s.take(p.len() as int) == p {
        let rest = s.skip(p.len() as int);
        assert forall|i: int| 0 <= i < rest.len() implies crate::text::ascii_char(#[trigger] rest[i]) by {
            assert(rest[i] == s[i + p.len()]);
        }
        lemma_replaced_ascii(rest, p, r);
        let out = r + replaced(rest, p, r);
        assert forall|i: int| 0 <= i < out.len() implies crate::text::ascii_char(#[trigger] out[i]) by {
            if i >= r.len() {
                assert(out[i] == replaced(rest, p, r)[i - r.len()]);
            }
        }
    } else {
        let rest = s.skip(1);
        assert forall|i: int| 0 <= i < rest.len() implies crate::text::ascii_char(#[trigger] rest[i]) by {
            assert(rest[i] == s[i + 1]);
        }
        lemma_replaced_ascii(rest, p, r);
        let out = seq![s[0]] + replaced(rest, p, r);
        assert forall|i: int| 0 <= i < out.len() implies crate::text::ascii_char(#[trigger] out[i]) by {
            if i >= 1 {
                assert(out[i] == replaced(rest, p, r)[i - 1]);
            }
        }
    }
}

proof fn lemma_occurs_ascii(s: Seq<char>, c: Seq<char>)
    requires
        ascii_seq(s),
        occurs(s, c),
    ensures
        ascii_seq(c),
{
    let k = choose|k: int| occurs_at(s, c, k);
    assert forall|i: int| 0 <= i < c.len() implies crate::text::ascii_char(#[trigger] c[i]) by {
        assert(c[i] == s.subrange(k, k + c.len())[i]);
    }
}

/// Whether `p` stands in `s` at position `i`.
fn matches_at(s: &Vec<char>, p: &Vec<char>, i: usize) -> (r: bool)
    requires
        i <= s.len(),
    ensures
        r == (p.len() <= s.len() - i && s@.skip(i as int).take(p.len() as int) == p@),
{
    if p.len() > s.len() - i {
        return false;
    }
    let mut k: usize = 0;
    while k < p.len()
        invariant
            p.len() <= s.len() - i,
            k <= p.len(),
            forall|m: int| 0 <= m < k ==> s@[i + m] == p@[m],
        decreases p.len() - k,
    {
        if s[i + k] != p[k] {
            assert(s@.skip(i as int).take(p.len() as int)[k as int] != p@[k as int]);
            return false;
        }
        k += 1;
    }
    assert(s@.skip(i as int).take(p.len() as int) =~= p@);
    true
}

/// Replaces every occurrence of `p` in `s` by `r` (see `replaced`).
pub fn replace_all(s: &Vec<char>, p: &Vec<char>, r: &Vec<char>) -> (out: Vec<char>)
    requires
        p.len() > 0,
    ensures
        out@ == replaced(s@, p@, r@),
{
    let mut out: Vec<char> = Vec::new();
    let mut i: usize = 0;
    assert(s@.skip(0) =~= s@);
    assert(out@ + replaced(s@, p@, r@) =~= replaced(s@, p@, r@));
    while i < s.len()
        invariant
            i <= s.len(),
            p.len() > 0,
            out@ + replaced(s@.skip(i as int), p@, r@) == replaced(s@, p@, r@),
        decreases s.len() - i,
    {
        let ghost rest = s@.skip(i as int);
        if matches_at(s, p, i) {
            let mut k: usize = 0;
            let ghost base = out@;
            while k < r.len()
                invariant
                    k <= r.len(),
                    out@ == base + r@.take(k as int),
                decreases r.len() - k,
            {
                out.push(r[k]);
                k += 1;
                assert(out@ =~= base + r@.take(k as int));
            }
            assert(r@.take(k as int) =~= r@);
            assert(rest.skip(p.len() as int) =~= s@.skip(i + p.len()));
            assert(base + (r@ + replaced(rest.skip(p.len() as int), p@, r@)) =~= out@ + replaced(
                s@.skip(i + p.len()),
                p@,
                r@,
            ));
            i = i + p.len();
        } else {
            let ghost base = out@;
            out.push(s[i]);
            assert(rest.skip(1) =~= s@.skip(i + 1));
            proof {
                if rest.len() < p@.len() {
                    assert(replaced(rest, p@, r@) == rest);
                    assert(replaced(rest.skip(1), p@, r@) == rest.skip(1));
                    assert(rest =~= seq![s@[i as int]] + rest.skip(1));
                } else {
                    assert(rest[0] == s@[i as int]);
                }
            }
            assert(base + (seq![s@[i as int]] + replaced(rest.skip(1), p@, r@)) =~= out@ + replaced(
                s@.skip(i + 1),
                p@,
                r@,
            ));
            i = i + 1;
        }
    }
    assert(s@.skip(i as int) =~= seq![]);
    assert(out@ + seq![] =~= out@);
    out
}

proof fn lemma_rows_occur(f: Seq<char>, p: Seq<int>, i: nat, c: Seq<char>)
    requires
        rising(p, f.len() as int),
        i <= p.len(),
        rows(f, p, i).contains(c),
    ensures
        occurs(f, c),
        c.len() > 0,
    decreases i,
{
    let prev = rows(f, p, (i - 1) as nat);
    let last = row(f, p, i - 1);
    assert(rows(f, p, i) == prev + last);
    let k = choose|k: int| 0 <= k < rows(f, p, i).len() && rows(f, p, i)[k] == c;
    if k < prev.len() {
        assert(prev[k] == c);
        lemma_rows_occur(f, p, (i - 1) as nat, c);
    } else {
        let d = k - prev.len();
        assert(last[d] == c);
        let a = p[i - 1];
        let b = p[i + d];
        assert(a < b);
        assert(c == f.subrange(a, b));
        assert(occurs_at(f, c, a));
    }
}

proof fn lemma_occurs_within(s: Seq<char>, f: Seq<char>, c: Seq<char>)
    requires
        occurs(s, f),
        occurs(f, c),
    ensures
        occurs(s, c),
{
    let k = choose|k: int| occurs_at(s, f, k);
    let m = choose|m: int| occurs_at(f, c, m);
    assert(s.subrange(k + m, k + m + c.len()) =~= f.subrange(m, m + c.len()));
    assert(occurs_at(s, c, k + m));
}

proof fn lemma_all_candidates_occur(s: Seq<char>, fs: Seq<Seq<char>>, c: Seq<char>)
    requires
        forall|i: int| 0 <= i < fs.len() ==> occurs(s, #[trigger] fs[i]),
        forall|i: int| 0 <= i < fs.len() ==> #[trigger] fs[i].len() > 0,
        all_candidates(fs).contains(c),
    ensures
        occurs(s, c),
        c.len() > 0,
    decreases fs.len(),
{
    let prev = all_candidates(fs.drop_last());
    let f = fs.last();
    let last = frag_candidates(f);
    assert(all_candidates(fs) == prev + last);
    let k = choose|k: int| 0 <= k < all_candidates(fs).len() && all_candidates(fs)[k] == c;
    if k < prev.len() {
        assert(prev[k] == c);
        assert forall|i: int| 0 <= i < fs.drop_last().len() implies occurs(
            s,
            #[trigger] fs.drop_last()[i],
        ) by {
            assert(fs.drop_last()[i] == fs[i]);
        }
        assert forall|i: int| 0 <= i < fs.drop_last().len() implies #[trigger] fs.drop_last()[i].len()
            > 0 by {
            assert(fs.drop_last()[i] == fs[i]);
        }
        lemma_all_candidates_occur(s, fs.drop_last(), c);
    } else {
        assert(last[k - prev.len()] == c);
        assert(fs[fs.len() - 1] == f);
        lemma_split_points_rising(f);
        lemma_rows_occur(f, split_points_of(f), split_points_of(f).len(), c);
        lemma_occurs_within(s, f, c);
    }
}

/// Every candidate of a command is non-empty and stands in it.
pub proof fn lemma_candidates_occur(s: Seq<char>, c: Seq<char>)
    requires
        count_of(candidates_of(s), c) > 0,
    ensures
        occurs(s, c),
        c.len() > 0,
{
    lemma_count_contains(candidates_of(s), c);
    lemma_fragments_occur(s);
    lemma_all_candidates_occur(s, fragments_of(s), c);
}

proof fn lemma_count_contains(l: Seq<Seq<char>>, c: Seq<char>)
    requires
        count_of(l, c) > 0,
    ensures
        l.contains(c),
    decreases l.len(),
{
    if l.last() == c {
        assert(l[l.len() - 1] == c);
    } else {
        lemma_count_contains(l.drop_last(), c);
        let k = choose|k: int| 0 <= k < l.drop_last().len() && l.drop_last()[k] == c;
        assert(l[k] == c);
    }
}

/// A binding as name and value.
pub open spec fn binding_views(b: Seq<(Vec<char>, Vec<char>)>) -> Seq<(Seq<char>, Seq<char>)> {
    b.map_values(|x: (Vec<char>, Vec<char>)| (x.0@, x.1@))
}

/// The names of a list of bindings.
pub open spec fn names_bound(b: Seq<(Seq<char>, Seq<char>)>) -> Seq<Seq<char>> {
    b.map_values(|x: (Seq<char>, Seq<char>)| x.0)
}

/// The command after the substitutions of a list of bindings, in order.
pub open spec fn replayed(s: Seq<char>, b: Seq<(Seq<char>, Seq<char>)>) -> Seq<char>
    decreases b.len(),
{
    if b.len() == 0 {
        s
    } else {
        replaced(replayed(s, b.drop_last()), b.last().1, reference_of(b.last().0))
    }
}

/// Binding `value` to `name` is the step the loop takes on `text` with the
/// names in `used`: the value heads the savings table, so that it stands at
/// least twice among the candidates and no candidate saves more; it saves at
/// least 2; and the name is the first free one for it.
pub open spec fn step_taken(
    text: Seq<char>,
    used: Seq<Seq<char>>,
    name: Seq<char>,
    value: Seq<char>,
) -> bool {
    &&& savings_table_of(text, used).len() > 0
    &&& savings_table_of(text, used)[0].0 == value
    &&& count_of(candidates_of(text), value) >= 2
    &&& savings_of(text, used, value) >= 2
    &&& forall|c: Seq<char>|
        count_of(candidates_of(text), c) >= 2 ==> #[trigger] savings_of(text, used, c)
            <= savings_of(text, used, value)
    &&& first_free(value, used, name)
}

/// The savings table is empty or its head saves less than 2, so that no
/// candidate that stands twice saves 2 or more.
pub open spec fn finished(text: Seq<char>, used: Seq<Seq<char>>) -> bool {
    &&& (savings_table_of(text, used).len() == 0 || savings_table_of(text, used)[0].1 < 2)
    &&& forall|c: Seq<char>|
        count_of(candidates_of(text), c) >= 2 ==> #[trigger] savings_of(text, used, c) < 2
}

/// The run that turns `s` into `fin` by the bindings `b`: each binding is the
/// step taken on the text that the ones before it left, and `fin` is that text
/// after the last one, where no step is left to take.
pub open spec fn run(s: Seq<char>, b: Seq<(Seq<char>, Seq<char>)>, fin: Seq<char>) -> bool {
    &&& forall|i: int|
        0 <= i < b.len() ==> step_taken(
            replayed(s, b.take(i)),
            names_bound(b.take(i)),
            #[trigger] b[i].0,
            b[i].1,
        )
    &&& fin == replayed(s, b)
    &&& finished(fin, names_bound(b))
}

/// Compacts a command: binds the candidate that saves most to a fresh
/// variable, replaces it by a reference, and repeats while a candidate saves
/// at least 2. Returns the bindings as (name, value), in the order taken, and
/// the final command.
#[verifier::rlimit(100)]
pub fn compact(command: &Vec<char>) -> (r: (Vec<(Vec<char>, Vec<char>)>, Vec<char>))
    requires
        command@.len() < usize::MAX - 12,
    ensures
        run(command@, binding_views(r.0@), r.1@),
        ascii_seq(command@) ==> forall|i: int|
            0 <= i < r.0.len() ==> legal_name(#[trigger] binding_views(r.0@)[i].0),
{
    let mut bindings: Vec<(Vec<char>, Vec<char>)> = Vec::new();
    let mut used: Vec<Vec<char>> = Vec::new();
    let mut text: Vec<char> = command.clone();
    loop
        invariant
            command@.len() < usize::MAX - 12,
            used.len() + text.len() <= command@.len(),
            texts_of(used@) == names_bound(binding_views(bindings@)),
            text@ == replayed(command@, binding_views(bindings@)),
            ascii_seq(command@) ==> ascii_seq(text@),
            ascii_seq(command@) ==> forall|i: int|
                0 <= i < bindings.len() ==> legal_name(#[trigger] binding_views(bindings@)[i].0),
            forall|i: int|
                0 <= i < bindings.len() ==> step_taken(
                    replayed(command@, binding_views(bindings@).take(i)),
                    names_bound(binding_views(bindings@).take(i)),
                    #[trigger] binding_views(bindings@)[i].0,
                    binding_views(bindings@)[i].1,
                ),
        decreases text.len(),
    {
        let table = build_savings_table(&used, &text);
        if table.len() == 0 || table[0].1 < 2 {
            assert(finished(text@, texts_of(used@))) by {
                assert forall|c: Seq<char>|
                    count_of(candidates_of(text@), c) >= 2 implies #[trigger] savings_of(
                    text@,
                    texts_of(used@),
                    c,
                ) < 2 by {
                    let i = choose|i: int| 0 <= i < table.len() && #[trigger] table@[i].0@ == c;
                    assert(entry_views(table@)[i].1 <= entry_views(table@)[0].1);
                }
            }
            return (bindings, text);
        }
        let value = table[0].0.clone();
        let ghost bv = binding_views(bindings@);
        let ghost u = texts_of(used@);
        assert(value@ == table@[0].0@);
        assert forall|c: Seq<char>|
            count_of(candidates_of(text@), c) >= 2 implies #[trigger] savings_of(text@, u, c)
            <= savings_of(text@, u, value@) by {
            let i = choose|i: int| 0 <= i < table.len() && #[trigger] table@[i].0@ == c;
            if i > 0 {
                assert(entry_views(table@)[0].1 >= entry_views(table@)[i].1);
            }
        }
        let name = var_name(&used, &value);
        proof {
            lemma_candidates_occur(text@, value@);
            let n = count_of(candidates_of(text@), value@) as int;
            let d = value@.len() - name@.len() - 3;
            assert(n * d > 0) by {
                if n * d <= 0 {
                    assert(savings_of(text@, u, value@) <= 0);
                }
            }
            assert(d > 0) by (nonlinear_arith)
                requires
                    n * d > 0,
                    n >= 0,
            ;
        }
        let mut reference: Vec<char> = vec!['$', '{'];
        let mut copy = name.clone();
        reference.append(&mut copy);
        reference.push('}');
        assert(reference@ =~= reference_of(name@));
        let next = replace_all(&text, &value, &reference);
        proof {
            lemma_replaced_shorter(text@, value@, reference@);
            if ascii_seq(command@) {
                lemma_occurs_ascii(text@, value@);
                assert(legal_name(name@));
                assert forall|i: int| 0 <= i < reference@.len() implies crate::text::ascii_char(
                    #[trigger] reference@[i],
                ) by {
                    if 2 <= i < reference@.len() - 1 {
                        assert(reference@[i] == name@[i - 2]);
                        assert(crate::text::name_char_ok(name@[i - 2]));
                    }
                }
                lemma_replaced_ascii(text@, value@, reference@);
            }
        }
        let ghost old_used = used@;
        let kept = name.clone();
        assert(kept@ == name@);
        used.push(kept);
        assert(texts_of(used@) =~= texts_of(old_used).push(name@));
        bindings.push((name, value));
        let ghost nb = binding_views(bindings@);
        assert(nb =~= bv.push((nb.last().0, nb.last().1)));
        assert(nb.drop_last() =~= bv);
        assert(texts_of(used@) =~= names_bound(nb));
        assert(nb.take(bv.len() as int) =~= bv);
        assert forall|i: int|
            0 <= i < nb.len() implies step_taken(
            replayed(command@, nb.take(i)),
            names_bound(nb.take(i)),
            #[trigger] nb[i].0,
            nb[i].1,
        ) by {
            if i < bv.len() {
                assert(nb.take(i) =~= bv.take(i));
                assert(nb[i] == bv[i]);
            }
        }
        assert forall|i: int| 0 <= i < nb.len() && ascii_seq(command@) implies legal_name(
            #[trigger] nb[i].0,
        ) by {
            if i < bv.len() {
                assert(nb[i] == bv[i]);
            }
        }
        text = next;
    }
}

/// Every substitution of a run saves at least 2.
pub proof fn lemma_minimum_savings(s: Seq<char>, b: Seq<(Seq<char>, Seq<char>)>, fin: Seq<char>)
    requires
        run(s, b, fin),
    ensures
        forall|i: int|
            0 <= i < b.len() ==> savings_of(
                replayed(s, b.take(i)),
                names_bound(b.take(i)),
                #[trigger] b[i].1,
            ) >= 2,
{
    assert forall|i: int| 0 <= i < b.len() implies savings_of(
        replayed(s, b.take(i)),
        names_bound(b.take(i)),
        #[trigger] b[i].1,
    ) >= 2 by {
        assert(step_taken(replayed(s, b.take(i)), names_bound(b.take(i)), b[i].0, b[i].1));
    }
}

/// No name is bound twice in a run.
pub proof fn lemma_names_unique(s: Seq<char>, b: Seq<(Seq<char>, Seq<char>)>, fin: Seq<char>)
    requires
        run(s, b, fin),
    ensures
        forall|i: int, j: int| 0 <= i < j < b.len() ==> b[i].0 != b[j].0,
{
    assert forall|i: int, j: int| 0 <= i < j < b.len() implies b[i].0 != b[j].0 by {
        assert(step_taken(replayed(s, b.take(j)), names_bound(b.take(j)), b[j].0, b[j].1));
        let used = names_bound(b.take(j));
        let k = choose|k: nat|
            #![trigger proposal(b[j].1, k)]
            k >= 1 && proposal(b[j].1, k) == Some(b[j].0) && !used.contains(b[j].0) && forall|
                m: nat,
            | 1 <= m < k ==> #[trigger] taken(b[j].1, used, m);
        assert(used[i] == b[i].0);
    }
}

/// The command after undoing the substitutions of a list of bindings, last
/// first: each reference `${name}` goes back to its value.
pub open spec fn undone(t: Seq<char>, b: Seq<(Seq<char>, Seq<char>)>) -> Seq<char>
    decreases b.len(),
{
    if b.len() == 0 {
        t
    } else {
        undone(replaced(t, reference_of(b.last().0), b.last().1), b.drop_last())
    }
}

proof fn lemma_replaced_absent(s: Seq<char>, p: Seq<char>, r: Seq<char>)
    requires
        !occurs(s, p),
    ensures
        replaced(s, p, r) == s,
    decreases s.len(),
{
    if p.len() == 0 || s.len() < p.len() {
    } else {
        assert(!occurs_at(s, p, 0));
        assert(s.take(p.len() as int) =~= s.subrange(0, p.len() as int));
        let rest = s.skip(1);
        assert(!occurs(rest, p)) by {
            if occurs(rest, p) {
                let k = choose|k: int| occurs_at(rest, p, k);
                assert(s.subrange(k + 1, k + 1 + p.len()) =~= rest.subrange(k, k + p.len()));
                assert(occurs_at(s, p, k + 1));
            }
        }
        lemma_replaced_absent(rest, p, r);
        assert(s =~= seq![s[0]] + rest);
    }
}

/// A prefix of `replaced(t, p, r)` without `$` is a prefix of `t`, where `r`
/// starts with `$`.
proof fn lemma_prefix_before_reference(t: Seq<char>, p: Seq<char>, r: Seq<char>, m: int)
    requires
        p.len() > 0,
        r.len() > 0,
        r[0] == '$',
        0 <= m <= replaced(t, p, r).len(),
        forall|i: int| 0 <= i < m ==> replaced(t, p, r)[i] != '$',
    ensures
        m <= t.len(),
        t.take(m) == replaced(t, p, r).take(m),
    decreases t.len(),
{
    if t.len() < p.len() {
    } else if t.take(p.len() as int) == p {
        if m > 0 {
            assert(replaced(t, p, r)[0] == r[0]);
        }
        assert(t.take(0) =~= replaced(t, p, r).take(0));
    } else {
        let x = replaced(t.skip(1), p, r);
        assert(replaced(t, p, r) == seq![t[0]] + x);
        if m > 0 {
            assert forall|i: int| 0 <= i < m - 1 implies x[i] != '$' by {
                assert(x[i] == replaced(t, p, r)[i + 1]);
            }
            lemma_prefix_before_reference(t.skip(1), p, r, m - 1);
            assert(t.take(m) =~= seq![t[0]] + t.skip(1).take(m - 1));
            assert(replaced(t, p, r).take(m) =~= seq![t[0]] + x.take(m - 1));
        } else {
            assert(t.take(0) =~= replaced(t, p, r).take(0));
        }
    }
}

/// A reference `r` that starts with `$` and holds no other `$`.
pub open spec fn plain_reference(r: Seq<char>) -> bool {
    &&& r.len() >= 2
    &&& r[0] == '$'
    &&& forall|i: int| 1 <= i < r.len() ==> r[i] != '$'
}

/// Replacing `p` by a reference that did not stand in `s`, then the reference
/// by `p`, gives `s` back.
pub proof fn lemma_undo_step(s: Seq<char>, p: Seq<char>, r: Seq<char>)
    requires
        p.len() > 0,
        plain_reference(r),
        !occurs(s, r),
    ensures
        replaced(replaced(s, p, r), r, p) == s,
    decreases s.len(),
{
    if s.len() < p.len() {
        lemma_replaced_absent(s, r, p);
    } else if s.take(p.len() as int) == p {
        let rest = s.skip(p.len() as int);
        assert(!occurs(rest, r)) by {
            if occurs(rest, r) {
                let k = choose|k: int| occurs_at(rest, r, k);
                assert(s.subrange(k + p.len(), k + p.len() + r.len()) =~= rest.subrange(k, k + r.len()));
                assert(occurs_at(s, r, k + p.len()));
            }
        }
        lemma_undo_step(rest, p, r);
        let x = replaced(rest, p, r);
        let y = r + x;
        assert(y.take(r.len() as int) =~= r);
        assert(y.skip(r.len() as int) =~= x);
        assert(s =~= p + rest);
    } else {
        let rest = s.skip(1);
        assert(!occurs(rest, r)) by {
            if occurs(rest, r) {
                let k = choose|k: int| occurs_at(rest, r, k);
                assert(s.subrange(k + 1, k + 1 + r.len()) =~= rest.subrange(k, k + r.len()));
                assert(occurs_at(s, r, k + 1));
            }
        }
        lemma_undo_step(rest, p, r);
        let x = replaced(rest, p, r);
        let y = seq![s[0]] + x;
        assert(replaced(s, p, r) == y);
        if y.len() >= r.len() && y.take(r.len() as int) == r {
            assert forall|i: int| 0 <= i < r.len() - 1 implies x[i] != '$' by {
                assert(x[i] == y.take(r.len() as int)[i + 1]);
            }
            lemma_prefix_before_reference(rest, p, r, r.len() - 1);
            assert(s.subrange(0, r.len() as int) =~= seq![s[0]] + rest.take(r.len() - 1));
            assert(y.take(r.len() as int) =~= seq![s[0]] + x.take(r.len() - 1));
            assert(occurs_at(s, r, 0));
        }
        if y.len() < r.len() {
            assert(x.len() < r.len());
        } else {
            assert(y.skip(1) =~= x);
        }
        assert(s =~= seq![s[0]] + rest);
    }
}

/// Undoing the bindings of a substitution run, last first, gives the command
/// back, where each value is non-empty, each name holds no `$`, and no
/// reference stood in the text before its own substitution.
pub proof fn lemma_round_trip(s: Seq<char>, b: Seq<(Seq<char>, Seq<char>)>)
    requires
        forall|i: int| 0 <= i < b.len() ==> (#[trigger] b[i]).1.len() > 0,
        forall|i: int, k: int| 0 <= i < b.len() && 0 <= k < b[i].0.len() ==> (#[trigger] b[i].0[k]) != '$',
        forall|i: int|
            0 <= i < b.len() ==> !occurs(replayed(s, b.take(i)), reference_of(#[trigger] b[i].0)),
    ensures
        undone(replayed(s, b), b) == s,
    decreases b.len(),
{
    if b.len() > 0 {
        let bl = b.drop_last();
        let n = b.len() - 1;
        assert(b.take(n) =~= bl);
        assert forall|i: int| 0 <= i < bl.len() implies !occurs(
            replayed(s, bl.take(i)),
            reference_of(#[trigger] bl[i].0),
        ) by {
            assert(bl.take(i) =~= b.take(i));
            assert(bl[i] == b[i]);
        }
        assert forall|i: int| 0 <= i < bl.len() implies (#[trigger] bl[i]).1.len() > 0 by {
            assert(bl[i] == b[i]);
        }
        assert forall|i: int, k: int| 0 <= i < bl.len() && 0 <= k < bl[i].0.len() implies (
        #[trigger] bl[i].0[k]) != '$' by {
            assert(bl[i] == b[i]);
        }
        lemma_round_trip(s, bl);
        let r = reference_of(b[n].0);
        assert forall|i: int| 1 <= i < r.len() implies r[i] != '$' by {
            if 2 <= i < r.len() - 1 {
                assert(r[i] == b[n].0[i - 2]);
            }
        }
        assert(b.last() == b[n]);
        lemma_undo_step(replayed(s, bl), b[n].1, r);
    }
}

/// Undoing the bindings of a run, last first, turns its final command back
/// into the command it started from, where the names are legal and no
/// reference stood in the text before its own substitution.
pub proof fn lemma_run_round_trip(s: Seq<char>, b: Seq<(Seq<char>, Seq<char>)>, fin: Seq<char>)
    requires
        run(s, b, fin),
        forall|i: int| 0 <= i < b.len() ==> legal_name(#[trigger] b[i].0),
        forall|i: int|
            0 <= i < b.len() ==> !occurs(replayed(s, b.take(i)), reference_of(#[trigger] b[i].0)),
    ensures
        undone(fin, b) == s,
{
    assert forall|i: int| 0 <= i < b.len() implies (#[trigger] b[i]).1.len() > 0 by {
        assert(step_taken(replayed(s, b.take(i)), names_bound(b.take(i)), b[i].0, b[i].1));
        lemma_candidates_occur(replayed(s, b.take(i)), b[i].1);
    }
    assert forall|i: int, k: int| 0 <= i < b.len() && 0 <= k < b[i].0.len() implies (
    #[trigger] b[i].0[k]) != '$' by {
        assert(legal_name(b[i].0));
        assert(crate::text::name_char_ok(b[i].0[k]));
    }
    lemma_round_trip(s, b);
}

proof fn lemma_runs_agree(
    s: Seq<char>,
    b1: Seq<(Seq<char>, Seq<char>)>,
    f1: Seq<char>,
    b2: Seq<(Seq<char>, Seq<char>)>,
    f2: Seq<char>,
    i: int,
)
    requires
        run(s, b1, f1),
        run(s, b2, f2),
        0 <= i <= b1.len(),
        i <= b2.len(),
    ensures
        b1.take(i) == b2.take(i),
    decreases i,
{
    if i > 0 {
        lemma_runs_agree(s, b1, f1, b2, f2, i - 1);
        let t = b1.take(i - 1);
        assert(b2.take(i - 1) == t);
        let text = replayed(s, t);
        let used = names_bound(t);
        assert(step_taken(text, used, b1[i - 1].0, b1[i - 1].1));
        assert(step_taken(
            replayed(s, b2.take(i - 1)),
            names_bound(b2.take(i - 1)),
            b2[i - 1].0,
            b2[i - 1].1,
        ));
        assert(b1[i - 1].1 == b2[i - 1].1);
        lemma_naming_deterministic(b1[i - 1].1, used, b1[i - 1].0, b2[i - 1].0);
        assert(b1.take(i) =~= t.push(b1[i - 1]));
        assert(b2.take(i) =~= t.push(b2[i - 1]));
    }
}

/// A command has one run: two runs from the same command bind the same names
/// to the same values, in the same order, and end in the same command.
pub proof fn lemma_run_unique(
    s: Seq<char>,
    b1: Seq<(Seq<char>, Seq<char>)>,
    f1: Seq<char>,
    b2: Seq<(Seq<char>, Seq<char>)>,
    f2: Seq<char>,
)
    requires
        run(s, b1, f1),
        run(s, b2, f2),
    ensures
        b1 == b2,
        f1 == f2,
{
    if b1.len() < b2.len() {
        let i = b1.len() as int;
        lemma_runs_agree(s, b1, f1, b2, f2, i);
        assert(b1.take(i) =~= b1);
        assert(step_taken(replayed(s, b2.take(i)), names_bound(b2.take(i)), b2[i].0, b2[i].1));
        assert(savings_of(f1, names_bound(b1), b2[i].1) < 2);
    } else if b2.len() < b1.len() {
        let i = b2.len() as int;
        lemma_runs_agree(s, b1, f1, b2, f2, i);
        assert(b2.take(i) =~= b2);
        assert(step_taken(replayed(s, b1.take(i)), names_bound(b1.take(i)), b1[i].0, b1[i].1));
        assert(savings_of(f2, names_bound(b2), b1[i].1) < 2);
    } else {
        lemma_runs_agree(s, b1, f1, b2, f2, b1.len() as int);
        assert(b1.take(b1.len() as int) =~= b1);
        assert(b2.take(b2.len() as int) =~= b2);
    }
}

} // verus!
