//! Character-sequence helpers shared by the scanner, the parser and the
//! query builders.

use vstd::prelude::*;

verus! {

/// Joins `pieces` with `sep` between consecutive pieces.
pub open spec fn join(pieces: Seq<Seq<char>>, sep: Seq<char>) -> Seq<char>
    decreases pieces.len(),
{
    if pieces.len() == 0 {
        Seq::empty()
    } else if pieces.len() == 1 {
        pieces[0]
    } else {
        join(pieces.drop_last(), sep) + sep + pieces.last()
    }
}

/// Splits `s` at every `sep`, as `str::split` with a one-character pattern
/// does: the empty text gives one empty piece, and a separator at either end
/// gives an empty piece there.
pub open spec fn split(s: Seq<char>, sep: char) -> Seq<Seq<char>>
    decreases s.len(),
{
    if s.len() == 0 {
        seq![Seq::<char>::empty()]
    } else {
        let p = split(s.drop_last(), sep);
        if s.last() == sep {
            p.push(Seq::empty())
        } else {
            p.update(p.len() - 1, p.last().push(s.last()))
        }
    }
}

/// Splitting always gives at least one piece.
pub proof fn lemma_split_len(s: Seq<char>, sep: char)
    ensures
        split(s, sep).len() >= 1,
    decreases s.len(),
{
    if s.len() > 0 {
        lemma_split_len(s.drop_last(), sep);
    }
}

/// What `str::to_lowercase` returns for a text (Unicode lower-casing).
pub uninterp spec fn lowercase(s: Seq<char>) -> Seq<char>;

/// Wraps `str::to_lowercase`. The claim is only that the result is a
/// function of the input text alone; the Unicode case mapping itself is
/// left unstated.
#[verifier::external_body]
pub(crate) fn to_lowercase(s: &str) -> (r: String)
    ensures
        r@ == lowercase(s@),
{
    s.to_lowercase()
}

/// Wraps `String::from_iter` over characters: the string holds exactly the
/// given characters, in order.
#[verifier::external_body]
pub(crate) fn string_from_chars(cs: &Vec<char>) -> (s: String)
    ensures
        s@ == cs@,
{
    String::from_iter(cs.iter())
}

/// The characters of `s`, in order.
pub fn chars_of(s: &str) -> (v: Vec<char>)
    ensures
        v@ == s@,
{
    broadcast use vstd::string::group_string_axioms;
    let mut v: Vec<char> = Vec::new();
    for c in it: s.chars()
        invariant
            v@ == it.seq().take(it.index() as int),
            it.seq() == s@,
    {
        v.push(c);
    }
    v
}

/// `s` with every single quote preceded by a backslash.
pub open spec fn escape_quotes(s: Seq<char>) -> Seq<char>
    decreases s.len(),
{
    if s.len() == 0 {
        Seq::empty()
    } else if s.last() == '\'' {
        escape_quotes(s.drop_last()) + seq!['\\', '\'']
    } else {
        escape_quotes(s.drop_last()).push(s.last())
    }
}

/// Appends the characters of `w` to `v`.
pub fn push_all(v: &mut Vec<char>, w: &Vec<char>)
    ensures
        final(v)@ == old(v)@ + w@,
{
    let n = w.len();
    for i in 0..n
        invariant
            n == w@.len(),
            v@ == old(v)@ + w@.take(i as int),
    {
        v.push(w[i]);
        assert(w@.take(i + 1) =~= w@.take(i as int).push(w@[i as int]));
    }
    assert(w@.take(n as int) =~= w@);
}

/// Appends the characters of `lit` to `v`.
pub fn push_str(v: &mut Vec<char>, lit: &str)
    ensures
        final(v)@ == old(v)@ + lit@,
{
    let w = chars_of(lit);
    push_all(v, &w);
}

/// Whether two character sequences are equal.
pub fn chars_eq(a: &Vec<char>, b: &Vec<char>) -> (r: bool)
    ensures
        r == (a@ == b@),
{
    if a.len() != b.len() {
        return false;
    }
    let n = a.len();
    for i in 0..n
        invariant
            n == a@.len(),
            n == b@.len(),
            forall|j: int| 0 <= j < i ==> a@[j] == b@[j],
    {
        if a[i] != b[i] {
            return false;
        }
    }
    assert(a@ =~= b@);
    true
}

/// Whether `a` holds exactly the characters of `lit`.
pub fn chars_eq_str(a: &Vec<char>, lit: &str) -> (r: bool)
    ensures
        r == (a@ == lit@),
{
    let w = chars_of(lit);
    chars_eq(a, &w)
}

/// `s` with every single quote preceded by a backslash.
pub fn escape_quotes_exec(s: &Vec<char>) -> (r: Vec<char>)
    ensures
        r@ == escape_quotes(s@),
{
    let mut r: Vec<char> = Vec::new();
    let n = s.len();
    for i in 0..n
        invariant
            n == s@.len(),
            r@ == escape_quotes(s@.take(i as int)),
    {
        assert(s@.take(i + 1).drop_last() =~= s@.take(i as int));
        if s[i] == '\'' {
            r.push('\\');
            r.push('\'');
            assert(r@ =~= escape_quotes(s@.take(i as int)) + seq!['\\', '\'']);
        } else {
            r.push(s[i]);
        }
    }
    assert(s@.take(n as int) =~= s@);
    r
}

/// Splits `s` at every `sep` (see [`split`]).
pub fn split_exec(s: &Vec<char>, sep: char) -> (r: Vec<Vec<char>>)
    ensures
        r.deep_view() == split(s@, sep),
{
    let mut done: Vec<Vec<char>> = Vec::new();
    let mut cur: Vec<char> = Vec::new();
    let n = s.len();
    for i in 0..n
        invariant
            n == s@.len(),
            done.deep_view().push(cur@) == split(s@.take(i as int), sep),
    {
        proof {
            assert(s@.take(i + 1).drop_last() =~= s@.take(i as int));
            assert(s@.take(i + 1).last() == s@[i as int]);
        }
        if s[i] == sep {
            let ghost old_done = done.deep_view();
            let ghost old_cur = cur@;
            let finished = cur;
            done.push(finished);
            cur = Vec::new();
            assert(done.deep_view() =~= old_done.push(old_cur)) by {
                assert forall|j: int| 0 <= j < done@.len() implies #[trigger] done.deep_view()[j]
                    == old_done.push(old_cur)[j] by {
                    if j < old_done.len() {
                    }
                }
            }
            assert(done.deep_view().push(cur@) =~= old_done.push(old_cur).push(Seq::empty()));
        } else {
            let ghost old_done = done.deep_view();
            let ghost old_cur = cur@;
            cur.push(s[i]);
            assert(done.deep_view().push(cur@) =~= old_done.push(old_cur).update(
                old_done.len() as int,
                old_cur.push(s@[i as int]),
            ));
        }
    }
    assert(s@.take(n as int) =~= s@);
    let ghost before = done.deep_view();
    done.push(cur);
    assert(done.deep_view() =~= before.push(cur@)) by {
        assert forall|j: int| 0 <= j < done@.len() implies #[trigger] done.deep_view()[j]
            == before.push(cur@)[j] by {
        }
    }
    done
}

} // verus!
