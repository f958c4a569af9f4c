//! Character classes and the text transformations that build variable names.

use vstd::prelude::*;

verus! {

/// Whether `char::is_alphanumeric` holds of a character.
pub uninterp spec fn alnum(c: char) -> bool;

/// Whether `char::is_numeric` holds of a character.
pub uninterp spec fn numeric(c: char) -> bool;

/// Whether `char::is_whitespace` holds of a character.
pub uninterp spec fn white(c: char) -> bool;

/// What `str::to_uppercase` returns for a text.
pub uninterp spec fn upper_of(s: Seq<char>) -> Seq<char>;

pub open spec fn ascii_char(c: char) -> bool {
    (c as u32) < 128
}

pub open spec fn ascii_seq(s: Seq<char>) -> bool {
    forall|i: int| 0 <= i < s.len() ==> ascii_char(#[trigger] s[i])
}

pub open spec fn ascii_digit(c: char) -> bool {
    '0' <= c && c <= '9'
}

pub open spec fn ascii_upper_letter(c: char) -> bool {
    'A' <= c && c <= 'Z'
}

pub open spec fn ascii_lower_letter(c: char) -> bool {
    'a' <= c && c <= 'z'
}

pub open spec fn ascii_alnum(c: char) -> bool {
    ascii_digit(c) || ascii_upper_letter(c) || ascii_lower_letter(c)
}

/// The ASCII upper-case form of a character; other characters are unchanged.
pub open spec fn ascii_upper(c: char) -> char {
    if ascii_lower_letter(c) {
        (((c as u32) - 32) as u8) as char
    } else {
        c
    }
}

/// A character that may stand in a variable name: `A`-`Z`, `0`-`9` or `_`.
pub open spec fn name_char_ok(c: char) -> bool {
    ascii_upper_letter(c) || ascii_digit(c) || c == '_'
}

/// Every character may stand in a variable name.
pub open spec fn name_chars(r: Seq<char>) -> bool {
    forall|i: int| 0 <= i < r.len() ==> name_char_ok(#[trigger] r[i])
}

/// A legal variable name: `[A-Z_][A-Z0-9_]*`.
pub open spec fn legal_name(r: Seq<char>) -> bool {
    &&& r.len() > 0
    &&& (ascii_upper_letter(r[0]) || r[0] == '_')
    &&& name_chars(r)
}

/// Relies on `char::is_alphanumeric`: a property of the character alone, which
/// on ASCII holds of letters and digits only.
#[verifier::external_body]
pub(crate) fn is_alnum(c: char) -> (r: bool)
    ensures
        r == alnum(c),
        ascii_char(c) ==> (r == ascii_alnum(c)),
{
    c.is_alphanumeric()
}

/// Relies on `char::is_numeric`: a property of the character alone, which on
/// ASCII holds of the digits only.
#[verifier::external_body]
pub(crate) fn is_numeric(c: char) -> (r: bool)
    ensures
        r == numeric(c),
        ascii_char(c) ==> (r == ascii_digit(c)),
{
    c.is_numeric()
}

/// Relies on `char::is_whitespace`: a property of the character alone.
#[verifier::external_body]
pub(crate) fn is_white(c: char) -> (r: bool)
    ensures
        r == white(c),
{
    c.is_whitespace()
}

/// Relies on `str::to_uppercase`: the result depends on the text alone, and an
/// ASCII text has each lower-case letter replaced by its upper-case form.
#[verifier::external_body]
pub(crate) fn to_upper(s: &Vec<char>) -> (r: Vec<char>)
    ensures
        r@ == upper_of(s@),
        ascii_seq(s@) ==> r@ == s@.map_values(|c: char| ascii_upper(c)),
{
    let t: String = s.iter().collect();
    t.to_uppercase().chars().collect()
}

/// The texts held by a list of buffers.
pub open spec fn texts_of(v: Seq<Vec<char>>) -> Seq<Seq<char>> {
    v.map_values(|b: Vec<char>| b@)
}

/// Whether two texts are equal.
pub fn same_text(a: &Vec<char>, b: &Vec<char>) -> (r: bool)
    ensures
        r == (a@ == b@),
{
    if a.len() != b.len() {
        return false;
    }
    let mut i: usize = 0;
    while i < a.len()
        invariant
            a.len() == b.len(),
            i <= a.len(),
            a@.take(i as int) == b@.take(i as int),
        decreases a.len() - i,
    {
        if a[i] != b[i] {
            assert(a@[i as int] != b@[i as int]);
            return false;
        }
        assert(a@.take(i + 1) =~= a@.take(i as int).push(a@[i as int]));
        assert(b@.take(i + 1) =~= b@.take(i as int).push(b@[i as int]));
        i += 1;
    }
    assert(a@.take(i as int) =~= a@);
    assert(b@.take(i as int) =~= b@);
    true
}

/// The character that stands for `c` in a variable name.
pub open spec fn name_char(c: char) -> char {
    if alnum(c) {
        c
    } else {
        '_'
    }
}

/// A text made into a shell identifier: upper case, every character that is
/// not alphanumeric replaced by `_`, and `_` in front of a leading digit.
pub open spec fn legalized(s: Seq<char>) -> Seq<char> {
    let m = upper_of(s).map_values(|c: char| name_char(c));
    if m.len() > 0 && numeric(m[0]) {
        seq!['_'] + m
    } else {
        m
    }
}

/// Turns a text into a shell identifier (see `legalized`).
pub fn legalize(s: &Vec<char>) -> (r: Vec<char>)
    ensures
        r@ == legalized(s@),
        ascii_seq(s@) ==> name_chars(r@),
        ascii_seq(s@) && s@.len() > 0 ==> legal_name(r@),
{
    let u = to_upper(s);
    let mut m: Vec<char> = Vec::new();
    let mut i: usize = 0;
    while i < u.len()
        invariant
            u@ == upper_of(s@),
            ascii_seq(s@) ==> u@ == s@.map_values(|c: char| ascii_upper(c)),
            i <= u.len(),
            m@ == u@.take(i as int).map_values(|c: char| name_char(c)),
            ascii_seq(s@) ==> name_chars(m@),
        decreases u.len() - i,
    {
        let c = u[i];
        let a = is_alnum(c);
        let k = if a { c } else { '_' };
        proof {
            if ascii_seq(s@) {
                let x = s@[i as int];
                assert(ascii_char(x));
                assert(c == ascii_upper(x));
                assert(ascii_char(c));
                assert(name_char_ok(k));
            }
        }
        let ghost before = m@;
        m.push(k);
        i += 1;
        assert(m@ =~= u@.take(i as int).map_values(|c: char| name_char(c)));
        assert(m@ == before.push(k));
    }
    assert(u@.take(i as int) =~= u@);
    if m.len() > 0 && is_numeric(m[0]) {
        let ghost mm = m@;
        let mut r: Vec<char> = vec!['_'];
        r.append(&mut m);
        assert(r@ =~= seq!['_'] + mm);
        proof {
            if ascii_seq(s@) {
                assert forall|j: int| 0 <= j < r@.len() implies name_char_ok(#[trigger] r@[j]) by {
                    if j > 0 {
                        assert(r@[j] == mm[j - 1]);
                    }
                }
            }
        }
        r
    } else {
        proof {
            if ascii_seq(s@) && s@.len() > 0 {
                assert(m@.len() == s@.len());
                assert(name_char_ok(m@[0]));
                assert(ascii_char(m@[0]));
            }
        }
        m
    }
}

/// Where a run of an abbreviation ends.
#[derive(Clone, Copy, Debug, PartialEq, Eq)]
pub enum Sep {
    /// Runs are separated by `-`.
    Dash,
    /// Runs are separated by any character that is not alphanumeric.
    NonAlnum,
    /// Runs are separated by `/`.
    Slash,
}

pub open spec fn is_sep(sep: Sep, c: char) -> bool {
    match sep {
        Sep::Dash => c == '-',
        Sep::NonAlnum => !alnum(c),
        Sep::Slash => c == '/',
    }
}

fn sep_at(sep: Sep, c: char) -> (r: bool)
    ensures
        r == is_sep(sep, c),
{
    match sep {
        Sep::Dash => c == '-',
        Sep::NonAlnum => !is_alnum(c),
        Sep::Slash => c == '/',
    }
}

/// The scan behind an abbreviation: the characters kept so far, and whether
/// the next alphanumeric character starts a run and is kept.
pub open spec fn abbrev_scan(s: Seq<char>, sep: Sep) -> (Seq<char>, bool)
    decreases s.len(),
{
    if s.len() == 0 {
        (seq![], true)
    } else {
        let (o, a) = abbrev_scan(s.drop_last(), sep);
        let c = s.last();
        let (o2, a2) = if a && alnum(c) {
            (o.push(c), false)
        } else {
            (o, a)
        };
        (o2, if is_sep(sep, c) { true } else { a2 })
    }
}

/// The first alphanumeric character of each run, legalized; `None` where no
/// character is kept or the legalized text is empty.
pub open spec fn abbreviated(s: Seq<char>, sep: Sep) -> Option<Seq<char>> {
    let o = abbrev_scan(s, sep).0;
    if o.len() == 0 || legalized(o).len() == 0 {
        None
    } else {
        Some(legalized(o))
    }
}

/// Abbreviates a text to the first alphanumeric character of each run.
pub fn shorten(s: &Vec<char>, sep: Sep) -> (r: Option<Vec<char>>)
    ensures
        r matches Some(v) ==> abbreviated(s@, sep) == Some(v@),
        r is None ==> abbreviated(s@, sep) is None,
        ascii_seq(s@) ==> (r matches Some(v) ==> legal_name(v@)),
{
    let mut o: Vec<char> = Vec::new();
    let mut add: bool = true;
    let mut i: usize = 0;
    while i < s.len()
        invariant
            i <= s.len(),
            (o@, add) == abbrev_scan(s@.take(i as int), sep),
            ascii_seq(s@) ==> ascii_seq(o@),
        decreases s.len() - i,
    {
        let c = s[i];
        assert(s@.take(i + 1).drop_last() =~= s@.take(i as int));
        if add && is_alnum(c) {
            let ghost before = o@;
            o.push(c);
            assert(o@ == before.push(c));
            add = false;
        }
        if sep_at(sep, c) {
            add = true;
        }
        i += 1;
    }
    assert(s@.take(i as int) =~= s@);
    if o.len() == 0 {
        None
    } else {
        let l = legalize(&o);
        if l.len() == 0 {
            None
        } else {
            Some(l)
        }
    }
}

/// The text without its trailing `/` characters.
pub open spec fn trim_slashes(s: Seq<char>) -> Seq<char>
    decreases s.len(),
{
    if s.len() > 0 && s.last() == '/' {
        trim_slashes(s.drop_last())
    } else {
        s
    }
}

/// The text after the last `/` (all of it where there is none).
pub open spec fn after_slash(s: Seq<char>) -> Seq<char>
    decreases s.len(),
{
    if s.len() == 0 {
        s
    } else if s.last() == '/' {
        seq![]
    } else {
        after_slash(s.drop_last()).push(s.last())
    }
}

/// The last non-empty `/`-separated component of a text; empty where there is
/// none.
pub open spec fn last_component(s: Seq<char>) -> Seq<char> {
    after_slash(trim_slashes(s))
}

/// The last non-empty `/`-separated component of a text, as it stands.
pub fn component(s: &Vec<char>) -> (r: Vec<char>)
    ensures
        r@ == last_component(s@),
        ascii_seq(s@) ==> ascii_seq(r@),
{
    let mut e: usize = s.len();
    assert(s@.take(s.len() as int) =~= s@);
    while e > 0 && s[e - 1] == '/'
        invariant
            e <= s.len(),
            trim_slashes(s@) == trim_slashes(s@.take(e as int)),
        decreases e,
    {
        assert(s@.take(e - 1) =~= s@.take(e as int).drop_last());
        e -= 1;
    }
    let mut b: usize = e;
    while b > 0 && s[b - 1] != '/'
        invariant
            b <= e <= s.len(),
            trim_slashes(s@) == s@.take(e as int),
            after_slash(s@.take(e as int)) == after_slash(s@.take(b as int)) + s@.subrange(
                b as int,
                e as int,
            ),
        decreases b,
    {
        assert(s@.take(b - 1) =~= s@.take(b as int).drop_last());
        assert(s@.subrange(b - 1, e as int) =~= seq![s@[b - 1]] + s@.subrange(b as int, e as int));
        assert(after_slash(s@.take(b as int)) == after_slash(s@.take(b - 1)).push(s@[b - 1]));
        assert(after_slash(s@.take(b - 1)).push(s@[b - 1]) + s@.subrange(b as int, e as int)
            =~= after_slash(s@.take(b - 1)) + s@.subrange(b - 1, e as int));
        b -= 1;
    }
    let mut r: Vec<char> = Vec::new();
    let mut i: usize = b;
    while i < e
        invariant
            b <= i <= e <= s.len(),
            r@ == s@.subrange(b as int, i as int),
            ascii_seq(s@) ==> ascii_seq(r@),
        decreases e - i,
    {
        r.push(s[i]);
        i += 1;
        assert(r@ =~= s@.subrange(b as int, i as int));
    }
    assert(after_slash(s@.take(b as int)) =~= seq![]);
    assert(after_slash(s@.take(b as int)) + s@.subrange(b as int, e as int) =~= r@);
    r
}

/// The last component of a text's path, legalized; `None` where the text has
/// no non-empty component or the legalized text is empty.
pub open spec fn last_part_of(s: Seq<char>) -> Option<Seq<char>> {
    let p = last_component(s);
    if p.len() == 0 || legalized(p).len() == 0 {
        None
    } else {
        Some(legalized(p))
    }
}

/// The last non-empty `/`-separated component of a text, legalized.
pub fn last_part(s: &Vec<char>) -> (r: Option<Vec<char>>)
    ensures
        r matches Some(v) ==> last_part_of(s@) == Some(v@),
        r is None ==> last_part_of(s@) is None,
        ascii_seq(s@) ==> (r matches Some(v) ==> legal_name(v@)),
{
    let p = component(s);
    if p.len() == 0 {
        None
    } else {
        let l = legalize(&p);
        if l.len() == 0 {
            None
        } else {
            Some(l)
        }
    }
}

} // verus!
