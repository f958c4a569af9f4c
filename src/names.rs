//! Variable names for candidate texts: a lazily walked sequence of proposals,
//! and the first of them that is not in use yet.

use vstd::prelude::*;
use vstd::set_lib::{lemma_int_range, lemma_len_subset, lemma_map_size, set_int_range};
use crate::text::{
    abbreviated, ascii_seq, component, last_component, last_part, last_part_of, legal_name,
    name_chars, same_text, shorten, texts_of, Sep,
};

verus! {

/// The character of a decimal digit.
pub open spec fn digit_char(d: nat) -> char {
    ((48 + d) as u8) as char
}

/// The decimal notation of a number, without leading zeros.
pub open spec fn decimal_of(n: nat) -> Seq<char>
    decreases n,
{
    if n < 10 {
        seq![digit_char(n)]
    } else {
        decimal_of(n / 10).push(digit_char(n % 10))
    }
}

proof fn lemma_decimal_len(n: nat)
    ensures
        decimal_of(n).len() >= 1,
        n >= 10 ==> decimal_of(n).len() >= 2,
    decreases n,
{
    if n >= 10 {
        lemma_decimal_len(n / 10);
    }
}

proof fn lemma_decimal_injective(a: nat, b: nat)
    requires
        decimal_of(a) == decimal_of(b),
    ensures
        a == b,
    decreases a,
{
    lemma_decimal_len(a);
    lemma_decimal_len(b);
    if a < 10 && b < 10 {
        assert(decimal_of(a)[0] == digit_char(a));
        assert(decimal_of(b)[0] == digit_char(b));
    } else if a >= 10 && b >= 10 {
        assert(decimal_of(a).drop_last() =~= decimal_of(a / 10));
        assert(decimal_of(b).drop_last() =~= decimal_of(b / 10));
        assert(decimal_of(a).last() == digit_char(a % 10));
        assert(decimal_of(b).last() == digit_char(b % 10));
        lemma_decimal_injective(a / 10, b / 10);
    } else {
        lemma_decimal_len(a / 10);
        lemma_decimal_len(b / 10);
    }
}

/// Writes a number in decimal.
pub fn decimal(n: usize) -> (r: Vec<char>)
    ensures
        r@ == decimal_of(n as nat),
        name_chars(r@),
    decreases n,
{
    let d: u8 = (n % 10) as u8;
    let c: char = (48u8 + d) as char;
    if n < 10 {
        vec![c]
    } else {
        let mut r = decimal(n / 10);
        let ghost before = r@;
        r.push(c);
        assert(r@ == before.push(c));
        r
    }
}

/// The base of the numbered names: the text abbreviated at `/`, or `WTF`.
pub open spec fn fallback_base(t: Seq<char>) -> Seq<char> {
    match abbreviated(t, Sep::Slash) {
        Some(b) => b,
        None => seq!['W', 'T', 'F'],
    }
}

/// The numbered name of attempt `k` (from the sixth on): `<base>_<k - 3>`.
pub open spec fn numbered_name(t: Seq<char>, k: nat) -> Seq<char> {
    fallback_base(t) + seq!['_'] + decimal_of((k - 3) as nat)
}

/// The name proposed for a text at attempt `k` (counted from 1), or `None`
/// where that attempt proposes nothing.
pub open spec fn proposal(t: Seq<char>, k: nat) -> Option<Seq<char>> {
    if k == 1 {
        abbreviated(last_component(t), Sep::Dash)
    } else if k == 2 {
        abbreviated(last_component(t), Sep::NonAlnum)
    } else if k == 3 {
        abbreviated(last_component(t), Sep::Slash)
    } else if k == 4 {
        last_part_of(t)
    } else if k == 5 {
        abbreviated(t, Sep::Slash)
    } else if k >= 6 {
        Some(numbered_name(t, k))
    } else {
        None
    }
}

/// Whether attempt `k` proposes a name that is already in `used`, or none.
pub open spec fn taken(t: Seq<char>, used: Seq<Seq<char>>, k: nat) -> bool {
    match proposal(t, k) {
        Some(p) => used.contains(p),
        None => true,
    }
}

/// `r` is the first proposal for `t` that is not in `used`.
pub open spec fn first_free(t: Seq<char>, used: Seq<Seq<char>>, r: Seq<char>) -> bool {
    exists|k: nat|
        #![trigger proposal(t, k)]
        k >= 1 && proposal(t, k) == Some(r) && !used.contains(r) && forall|j: nat|
            1 <= j < k ==> #[trigger] taken(t, used, j)
}

/// The name that the generator gives `t` when the names in `used` are taken.
pub open spec fn chosen_name(t: Seq<char>, used: Seq<Seq<char>>) -> Seq<char> {
    choose|r: Seq<char>| first_free(t, used, r)
}

/// Two requests with the same text and the same names in use get the same
/// name.
pub proof fn lemma_naming_deterministic(
    t: Seq<char>,
    used: Seq<Seq<char>>,
    r1: Seq<char>,
    r2: Seq<char>,
)
    requires
        first_free(t, used, r1),
        first_free(t, used, r2),
    ensures
        r1 == r2,
{
    let k1 = choose|k: nat|
        #![trigger proposal(t, k)]
        k >= 1 && proposal(t, k) == Some(r1) && !used.contains(r1) && forall|j: nat|
            1 <= j < k ==> #[trigger] taken(t, used, j);
    let k2 = choose|k: nat|
        #![trigger proposal(t, k)]
        k >= 1 && proposal(t, k) == Some(r2) && !used.contains(r2) && forall|j: nat|
            1 <= j < k ==> #[trigger] taken(t, used, j);
    if k1 < k2 {
        assert(taken(t, used, k1));
    } else if k2 < k1 {
        assert(taken(t, used, k2));
    }
}

/// The generator's walk over the proposals for one text.
pub struct NameIter {
    pub text: Vec<char>,
    pub attempt: usize,
}

impl NameIter {
    /// A walk that has made no attempt yet.
    pub fn new(text: &Vec<char>) -> (r: NameIter)
        ensures
            r.text@ == text@,
            r.attempt == 0,
    {
        NameIter { text: text.clone(), attempt: 0 }
    }

    /// The next name proposed: the first attempt after the current one that
    /// proposes one.
    pub fn next(&mut self) -> (r: Vec<char>)
        requires
            old(self).attempt < usize::MAX - 6,
        ensures
            final(self).text@ == old(self).text@,
            old(self).attempt < final(self).attempt,
            final(self).attempt <= old(self).attempt + 6,
            proposal(old(self).text@, final(self).attempt as nat) == Some(r@),
            ascii_seq(old(self).text@) ==> legal_name(r@),
            forall|j: nat|
                old(self).attempt < j < final(self).attempt ==> #[trigger] proposal(
                    old(self).text@,
                    j,
                ) is None,
    {
        let ghost a0 = self.attempt;
        loop
            invariant
                self.text@ == old(self).text@,
                a0 == old(self).attempt,
                a0 < usize::MAX - 6,
                a0 <= self.attempt <= a0 + 5,
                self.attempt <= a0 || self.attempt <= 5,
                forall|j: nat| a0 < j <= self.attempt ==> #[trigger] proposal(self.text@, j) is None,
            decreases 6 - self.attempt + a0,
        {
            self.attempt = self.attempt + 1;
            let t = &self.text;
            let found: Option<Vec<char>> = if self.attempt == 1 {
                shorten(&component(t), Sep::Dash)
            } else if self.attempt == 2 {
                shorten(&component(t), Sep::NonAlnum)
            } else if self.attempt == 3 {
                shorten(&component(t), Sep::Slash)
            } else if self.attempt == 4 {
                last_part(t)
            } else if self.attempt == 5 {
                shorten(t, Sep::Slash)
            } else {
                let mut name = match shorten(t, Sep::Slash) {
                    Some(b) => b,
                    None => vec!['W', 'T', 'F'],
                };
                let ghost base = name@;
                name.push('_');
                let mut n = decimal(self.attempt - 3);
                let ghost digits = n@;
                name.append(&mut n);
                assert(name@ =~= numbered_name(t@, self.attempt as nat));
                assert(name@ =~= base.push('_') + digits);
                proof {
                    if ascii_seq(t@) {
                        assert(legal_name(base));
                        assert(name@[0] == base[0]);
                        assert forall|j: int| 0 <= j < name@.len() implies crate::text::name_char_ok(
                            #[trigger] name@[j],
                        ) by {
                            if j < base.len() {
                                assert(name@[j] == base[j]);
                            } else if j > base.len() {
                                assert(name@[j] == digits[j - base.len() - 1]);
                            }
                        }
                    }
                }
                Some(name)
            };
            match found {
                Some(name) => {
                    return name;
                },
                None => {},
            }
        }
    }
}

/// Whether a name is among the names in use.
pub fn is_used(used: &Vec<Vec<char>>, name: &Vec<char>) -> (r: bool)
    ensures
        r == texts_of(used@).contains(name@),
{
    let mut i: usize = 0;
    while i < used.len()
        invariant
            i <= used.len(),
            forall|j: int| 0 <= j < i ==> used@[j]@ != name@,
        decreases used.len() - i,
    {
        if same_text(&used[i], name) {
            assert(texts_of(used@)[i as int] == name@);
            return true;
        }
        i += 1;
    }
    assert(!texts_of(used@).contains(name@)) by {
        if texts_of(used@).contains(name@) {
            let j = choose|j: int| 0 <= j < texts_of(used@).len() && texts_of(used@)[j] == name@;
            assert(used@[j]@ == name@);
        }
    }
    false
}

proof fn lemma_numbered_injective(t: Seq<char>, a: nat, b: nat)
    requires
        a >= 6,
        b >= 6,
        numbered_name(t, a) == numbered_name(t, b),
    ensures
        a == b,
{
    let p = fallback_base(t) + seq!['_'];
    assert(numbered_name(t, a) == p + decimal_of((a - 3) as nat));
    assert(numbered_name(t, a).subrange(p.len() as int, numbered_name(t, a).len() as int)
        =~= decimal_of((a - 3) as nat));
    assert(numbered_name(t, b).subrange(p.len() as int, numbered_name(t, b).len() as int)
        =~= decimal_of((b - 3) as nat));
    lemma_decimal_injective((a - 3) as nat, (b - 3) as nat);
}

/// Where every numbered name from attempt 6 to `k` is taken, there are at
/// least `k - 5` names in use.
proof fn lemma_numbered_taken(t: Seq<char>, used: Seq<Seq<char>>, k: nat)
    requires
        k >= 6,
        forall|j: nat| 6 <= j <= k ==> used.contains(#[trigger] numbered_name(t, j)),
    ensures
        k - 5 <= used.len(),
{
    let dom = set_int_range(6, k + 1 as int);
    let f = |i: int| numbered_name(t, i as nat);
    lemma_int_range(6, k + 1 as int);
    assert forall|x: int, y: int| dom.contains(x) && dom.contains(y) && f(x) == f(y) implies x
        == y by {
        lemma_numbered_injective(t, x as nat, y as nat);
    }
    let img = dom.map(f);
    lemma_map_size(dom, img, f);
    assert(img.subset_of(used.to_set())) by {
        assert forall|x: Seq<char>| img.contains(x) implies used.to_set().contains(x) by {
            let i = choose|i: int| dom.contains(i) && f(i) == x;
            assert(used.contains(numbered_name(t, i as nat)));
        }
    }
    used.lemma_cardinality_of_set();
    lemma_len_subset(img, used.to_set());
}

/// The name for a candidate text: the first proposal of the generator that is
/// not among the names in use.
pub fn var_name(used: &Vec<Vec<char>>, subpath: &Vec<char>) -> (r: Vec<char>)
    requires
        used@.len() < usize::MAX - 12,
    ensures
        first_free(subpath@, texts_of(used@), r@),
        r@ == chosen_name(subpath@, texts_of(used@)),
        !texts_of(used@).contains(r@),
        ascii_seq(subpath@) ==> legal_name(r@),
{
    let ghost names = texts_of(used@);
    let ghost t = subpath@;
    let mut it = NameIter::new(subpath);
    loop
        invariant
            it.text@ == t,
            t == subpath@,
            names == texts_of(used@),
            names.len() == used.len(),
            used@.len() < usize::MAX - 12,
            it.attempt <= used.len() + 6,
            forall|j: nat| 1 <= j <= it.attempt ==> #[trigger] taken(t, names, j),
        decreases used.len() + 6 - it.attempt,
    {
        let ghost a0 = it.attempt;
        let name = it.next();
        assert forall|j: nat| 1 <= j < it.attempt implies #[trigger] taken(t, names, j) by {
            if j > a0 {
                assert(proposal(t, j) is None);
            }
        }
        if !is_used(used, &name) {
            assert(first_free(t, names, name@));
            proof {
                let r2 = chosen_name(t, names);
                lemma_naming_deterministic(t, names, name@, r2);
            }
            return name;
        }
        assert(taken(t, names, it.attempt as nat));
        if it.attempt >= 6 {
            proof {
                assert forall|j: nat| 6 <= j <= it.attempt implies names.contains(
                    #[trigger] numbered_name(t, j),
                ) by {
                    assert(taken(t, names, j));
                }
                lemma_numbered_taken(t, names, it.attempt as nat);
            }
        }
    }
}

} // verus!
